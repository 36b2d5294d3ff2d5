use detemplatize::error::Error;
use detemplatize::error::PaletteFault;
use detemplatize::host::HostValue;
use detemplatize::palette::into_palette;
use detemplatize::palette::Palette;

fn entry_with(values: HostValue) -> HostValue {
    HostValue::Record(vec![("values".to_string(), values)])
}

fn rgb_entry(red: u32, green: u32, blue: u32) -> HostValue {
    entry_with(HostValue::List(vec![
        HostValue::Number(red),
        HostValue::Number(green),
        HostValue::Number(blue),
    ]))
}

#[test]
fn empty_palette_holds_nothing() {
    let palette = Palette::new();
    assert_eq!(palette.entries(), 0);
    assert_eq!(palette.lookup(0, 0, 0), None);
}

#[test]
fn push_gives_positions_as_indices() {
    let mut palette = Palette::new();
    palette.push(255, 0, 0);
    palette.push(0, 255, 0);
    palette.push(0, 0, 255);
    assert_eq!(palette.entries(), 3);
    assert_eq!(palette.lookup(255, 0, 0), Some(0));
    assert_eq!(palette.lookup(0, 255, 0), Some(1));
    assert_eq!(palette.lookup(0, 0, 255), Some(2));
    assert_eq!(palette.lookup(1, 2, 3), None);
}

#[test]
fn lookup_tells_channels_apart() {
    let mut palette = Palette::new();
    palette.push(1, 2, 3);
    assert_eq!(palette.lookup(1, 2, 3), Some(0));
    assert_eq!(palette.lookup(3, 2, 1), None);
    assert_eq!(palette.lookup(2, 1, 3), None);
    assert_eq!(palette.lookup(0, 1, 2), None);
    assert_eq!(palette.lookup(1, 2, 4), None);
}

#[test]
fn repeated_color_keeps_the_later_index() {
    let mut palette = Palette::new();
    palette.push(9, 9, 9);
    palette.push(1, 1, 1);
    palette.push(9, 9, 9);
    assert_eq!(palette.entries(), 3);
    assert_eq!(palette.lookup(9, 9, 9), Some(2));
    assert_eq!(palette.lookup(1, 1, 1), Some(1));
}

#[test]
fn index_wraps_after_256_entries() {
    let mut palette = Palette::new();
    for i in 0..300u32 {
        palette.push((i % 256) as u8, (i / 256) as u8, 7);
    }
    assert_eq!(palette.entries(), 300);
    assert_eq!(palette.lookup(255, 0, 7), Some(255));
    assert_eq!(palette.lookup(0, 1, 7), Some(0));
    assert_eq!(palette.lookup(43, 1, 7), Some(43));
}

#[test]
fn property_finds_the_first_field_of_that_name() {
    let record = HostValue::Record(vec![
        ("name".to_string(), HostValue::Text("red".to_string())),
        ("values".to_string(), HostValue::Number(1)),
        ("values".to_string(), HostValue::Number(2)),
    ]);
    match record.property(&"values".to_string()) {
        Some(HostValue::Number(number)) => assert_eq!(*number, 1),
        _ => panic!("the property was not found"),
    }
    assert!(record.property(&"value".to_string()).is_none());
    assert!(HostValue::Number(3).property(&"values".to_string()).is_none());
    assert!(HostValue::List(vec![]).property(&"values".to_string()).is_none());
}

#[test]
fn palette_from_a_list_of_colors() {
    let value = HostValue::List(vec![rgb_entry(255, 0, 0), rgb_entry(0, 255, 0)]);
    let palette = into_palette(&value).unwrap();
    assert_eq!(palette.entries(), 2);
    assert_eq!(palette.lookup(255, 0, 0), Some(0));
    assert_eq!(palette.lookup(0, 255, 0), Some(1));
    assert_eq!(palette.lookup(0, 0, 255), None);
}

#[test]
fn palette_from_an_empty_list() {
    let palette = into_palette(&HostValue::List(vec![])).unwrap();
    assert_eq!(palette.entries(), 0);
    assert_eq!(palette.lookup(0, 0, 0), None);
}

#[test]
fn palette_duplicates_collapse_to_the_last() {
    let value = HostValue::List(vec![
        rgb_entry(5, 5, 5),
        rgb_entry(6, 6, 6),
        rgb_entry(5, 5, 5),
    ]);
    let palette = into_palette(&value).unwrap();
    assert_eq!(palette.entries(), 3);
    assert_eq!(palette.lookup(5, 5, 5), Some(2));
    assert_eq!(palette.lookup(6, 6, 6), Some(1));
}

#[test]
fn components_keep_their_low_eight_bits() {
    let value = HostValue::List(vec![rgb_entry(256 + 7, 512, 0xffff_ffff)]);
    let palette = into_palette(&value).unwrap();
    assert_eq!(palette.lookup(7, 0, 255), Some(0));
}

#[test]
fn components_after_the_third_are_ignored() {
    let value = HostValue::List(vec![entry_with(HostValue::List(vec![
        HostValue::Number(1),
        HostValue::Number(2),
        HostValue::Number(3),
        HostValue::Text("alpha".to_string()),
    ]))]);
    let palette = into_palette(&value).unwrap();
    assert_eq!(palette.lookup(1, 2, 3), Some(0));
}

#[test]
fn other_properties_of_an_entry_are_ignored() {
    let value = HostValue::List(vec![HostValue::Record(vec![
        ("name".to_string(), HostValue::Text("red".to_string())),
        (
            "values".to_string(),
            HostValue::List(vec![
                HostValue::Number(255),
                HostValue::Number(0),
                HostValue::Number(0),
            ]),
        ),
    ])]);
    let palette = into_palette(&value).unwrap();
    assert_eq!(palette.lookup(255, 0, 0), Some(0));
}

#[test]
fn palette_that_is_a_string_is_malformed() {
    let value = HostValue::Text("not a list".to_string());
    assert_eq!(
        into_palette(&value).err(),
        Some(Error::MalformedPalette(PaletteFault::NotAList))
    );
}

#[test]
fn palette_that_is_no_list_is_malformed() {
    for value in [
        HostValue::Nothing,
        HostValue::Flag(true),
        HostValue::Number(3),
        HostValue::Record(vec![]),
        rgb_entry(1, 2, 3),
    ] {
        assert_eq!(
            into_palette(&value).err(),
            Some(Error::MalformedPalette(PaletteFault::NotAList))
        );
    }
}

#[test]
fn entry_whose_values_are_no_list_is_malformed() {
    for bad in [
        entry_with(HostValue::Text("255,0,0".to_string())),
        entry_with(HostValue::Number(255)),
        entry_with(HostValue::Nothing),
        HostValue::Record(vec![]),
        HostValue::Record(vec![("value".to_string(), HostValue::List(vec![]))]),
        HostValue::Number(1),
        HostValue::List(vec![
            HostValue::Number(1),
            HostValue::Number(2),
            HostValue::Number(3),
        ]),
    ] {
        let value = HostValue::List(vec![rgb_entry(1, 2, 3), bad]);
        assert_eq!(
            into_palette(&value).err(),
            Some(Error::MalformedPalette(PaletteFault::ValuesNotAList))
        );
    }
}

#[test]
fn entry_with_too_few_numbers_is_malformed() {
    for bad in [
        entry_with(HostValue::List(vec![])),
        entry_with(HostValue::List(vec![HostValue::Number(1), HostValue::Number(2)])),
        entry_with(HostValue::List(vec![
            HostValue::Number(1),
            HostValue::Text("2".to_string()),
            HostValue::Number(3),
        ])),
        entry_with(HostValue::List(vec![
            HostValue::Number(1),
            HostValue::Number(2),
            HostValue::Nothing,
        ])),
        entry_with(HostValue::List(vec![
            HostValue::Flag(false),
            HostValue::Number(2),
            HostValue::Number(3),
        ])),
    ] {
        let value = HostValue::List(vec![bad, rgb_entry(1, 2, 3)]);
        assert_eq!(
            into_palette(&value).err(),
            Some(Error::MalformedPalette(PaletteFault::ComponentsMissing))
        );
    }
}

#[test]
fn the_first_malformed_entry_decides_the_fault() {
    let no_list = entry_with(HostValue::Number(0));
    let too_short = entry_with(HostValue::List(vec![HostValue::Number(0)]));
    let value = HostValue::List(vec![rgb_entry(1, 1, 1), too_short, no_list]);
    assert_eq!(
        into_palette(&value).err(),
        Some(Error::MalformedPalette(PaletteFault::ComponentsMissing))
    );
    let no_list = entry_with(HostValue::Number(0));
    let too_short = entry_with(HostValue::List(vec![HostValue::Number(0)]));
    let value = HostValue::List(vec![no_list, too_short]);
    assert_eq!(
        into_palette(&value).err(),
        Some(Error::MalformedPalette(PaletteFault::ValuesNotAList))
    );
}

#[test]
fn each_error_has_its_message() {
    assert_eq!(
        Error::MalformedPalette(PaletteFault::NotAList).message(),
        "palette should be an array"
    );
    assert_eq!(
        Error::MalformedPalette(PaletteFault::ValuesNotAList).message(),
        "palette color values should be an array"
    );
    assert_eq!(
        Error::MalformedPalette(PaletteFault::ComponentsMissing).message(),
        "palette color values should start with three numbers"
    );
    assert_eq!(
        Error::MalformedGeometry.message(),
        "pixel buffer does not match the block geometry"
    );
}
