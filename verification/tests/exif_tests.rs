use mmcompare::exif::{exif_summary, ExifFields, FlashTag};

fn fields() -> ExifFields {
    ExifFields { make: None, model: None, lens: None, aperture: None, exposure: None, iso: None, flash: None }
}

#[test]
fn summary_lists_present_lines_in_order() {
    let f = ExifFields {
        make: Some("Canon".to_string()),
        model: Some("EOS R5".to_string()),
        lens: Some("RF 50mm".to_string()),
        aperture: Some("f/1.8".to_string()),
        exposure: Some("1/250s".to_string()),
        iso: Some("400".to_string()),
        flash: Some(FlashTag::Bits(0x19)),
    };
    assert_eq!(exif_summary(&f), "Canon EOS R5\nRF 50mm\nf/1.8\n1/250s\nISO 400\nFlash: On");
}

#[test]
fn summary_skips_missing_and_empty_values() {
    assert_eq!(exif_summary(&fields()), "");
    let mut f = fields();
    f.make = Some("Nikon".to_string());
    f.model = Some(String::new());
    f.lens = Some(String::new());
    f.flash = Some(FlashTag::Bits(0x10));
    assert_eq!(exif_summary(&f), "Nikon\nFlash: Off");
    let mut f = fields();
    f.model = Some("X100V".to_string());
    f.flash = Some(FlashTag::Text("auto".to_string()));
    assert_eq!(exif_summary(&f), "X100V\nFlash: auto");
}
