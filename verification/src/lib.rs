//! Ethernet vendor codes: resolve a MAC address to the vendor that owns its
//! OUI prefix, and map a vendor name back to its prefixes.

mod bits;
mod parse;
mod table;

pub use bits::{be48, bytes48, mask_of, len_of_mask, lemma_mask_of_injective};
pub use parse::{
    parse, line_record, spec_parse, record_model, EtherAddr, ETHER_ADDR_LEN, Record, RecordModel,
    is_space, hex_digit, hex_val, dec_digit, dec_val, octet_of, groups_of, hex_value, dec_value,
    parses_dec, digit_char, hex2, dec_str, ser_groups, lemma_octet_roundtrip,
    lemma_length_roundtrip, lemma_groups_roundtrip,
};
pub use table::{
    vendor, prefix, spec_vendor, prefixes_of, VendorEntry, VendorTable, entry_wf, table_wf,
    table_covers, table_from, rec_key, matches_rec, no_later_dup, in_table, entry_from_last,
    lemma_vendor_exact, lemma_vendor_masked, lemma_vendor_absent, lemma_prefixes_membership,
};
