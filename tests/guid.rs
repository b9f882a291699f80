use mu_rust_helpers::guid::{caller_id, guid, guid_fmt, ZERO};
use r_efi::efi;

#[test]
fn test_guid_macro() {
    let ms_whea_rsc_data_type_guid = efi::Guid::from_bytes(&guid("91DEEA05-8C0A-4DCD-B91E-F21CA0C68405").unwrap());
    let advanced_logger_protocol_guid = efi::Guid::from_bytes(&guid("434F695C-EF26-4A12-9EBA-DDEF0097497C").unwrap());
    let advanced_logger_protocol_guid_from_fields =
        efi::Guid::from_fields(0x434f695c, 0xef26, 0x4a12, 0x9e, 0xba, &[0xdd, 0xef, 0x00, 0x97, 0x49, 0x7c]);
    // the parsed GUID is the one built from its fields
    assert_eq!(advanced_logger_protocol_guid, advanced_logger_protocol_guid_from_fields);
    // the caller id is the zero GUID when the build gives none
    assert_eq!(caller_id(None), Some(ZERO()));
    // the zero GUID is zeroes
    assert_eq!(*efi::Guid::from_bytes(&ZERO()).as_bytes(), [0u8; 16]);
    // different text gives different GUIDs
    assert_ne!(advanced_logger_protocol_guid, ms_whea_rsc_data_type_guid);
}

#[test]
fn test_guid_string_macro() {
    assert_eq!(
        "434F695C-EF26-4A12-9EBA-DDEF0097497C",
        guid_fmt(&guid("434F695C-EF26-4A12-9EBA-DDEF0097497C").unwrap())
    );
}

#[test]
fn guid_text_round_trips_through_lower_case() {
    let g = guid("91deea05-8c0a-4dcd-b91e-f21ca0c68405").unwrap();
    assert_eq!(g[0], 0x05);
    assert_eq!(g[3], 0x91);
    assert_eq!(guid_fmt(&g), "91DEEA05-8C0A-4DCD-B91E-F21CA0C68405");
}

#[test]
fn malformed_guid_text_is_rejected() {
    assert_eq!(guid("not a guid"), None);
    assert_eq!(caller_id(Some("434F695C-EF26")), None);
    assert_eq!(
        caller_id(Some("434F695C-EF26-4A12-9EBA-DDEF0097497C")),
        guid("434F695C-EF26-4A12-9EBA-DDEF0097497C")
    );
}
