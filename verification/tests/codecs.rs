use serde_csv_extra::error::DecodeError;
use serde_csv_extra::maybe_image_size;
use serde_csv_extra::maybe_lat_lon;
use serde_csv_extra::vec_num;
use serde_csv_extra::vec_vec_num;

#[test]
fn vec_i32() {
    let foo: Vec<i32> = vec![-1, 0, 3];
    let foo_str = "\"-1_0_3\"";

    let serialized = serde_json::to_string(&vec_num::encode(&foo)).unwrap();
    assert_eq!(serialized, foo_str);

    let cell: String = serde_json::from_str(foo_str).unwrap();
    let deserialized: Vec<i32> = vec_num::decode(&cell).unwrap();
    assert_eq!(deserialized, foo);

    let empty: Vec<i32> = vec![];
    let empty_str = "\"\"";

    let serialized = serde_json::to_string(&vec_num::encode(&empty)).unwrap();
    assert_eq!(serialized, empty_str);

    let cell: String = serde_json::from_str(empty_str).unwrap();
    let deserialized: Vec<i32> = vec_num::decode(&cell).unwrap();
    assert_eq!(deserialized, empty);
}

#[test]
fn vec_vec_i32() {
    let foo: Vec<Vec<i32>> = vec![vec![0], vec![-1, 1]];
    let foo_str = "\"0|-1_1\"";

    let serialized = serde_json::to_string(&vec_vec_num::encode(&foo)).unwrap();
    assert_eq!(serialized, foo_str);

    let cell: String = serde_json::from_str(foo_str).unwrap();
    let deserialized: Vec<Vec<i32>> = vec_vec_num::decode(&cell).unwrap();
    assert_eq!(deserialized, foo);

    let empty: Vec<Vec<i32>> = vec![];
    let empty_str = "\"\"";

    let serialized = serde_json::to_string(&vec_vec_num::encode(&empty)).unwrap();
    assert_eq!(serialized, empty_str);

    let cell: String = serde_json::from_str(empty_str).unwrap();
    let deserialized: Vec<Vec<i32>> = vec_vec_num::decode(&cell).unwrap();
    assert_eq!(deserialized, empty);
}

#[test]
fn img_size() {
    let foo: Option<(u8, u16)> = Some((1, 2));
    let foo_str = "\"1x2\"";

    let serialized = serde_json::to_string(&maybe_image_size::encode(&foo)).unwrap();
    assert_eq!(serialized, foo_str);

    let cell: String = serde_json::from_str(foo_str).unwrap();
    let deserialized: Option<(u8, u16)> = maybe_image_size::decode(&cell).unwrap();
    assert_eq!(deserialized, foo);

    let empty: Option<(u8, u16)> = None;
    let empty_str = "\"\"";

    let serialized = serde_json::to_string(&maybe_image_size::encode(&empty)).unwrap();
    assert_eq!(serialized, empty_str);

    let cell: String = serde_json::from_str(empty_str).unwrap();
    let deserialized: Option<(u8, u16)> = maybe_image_size::decode(&cell).unwrap();
    assert_eq!(deserialized, empty);
}

#[test]
fn lat_lon_pair() {
    let foo: Option<(i32, i32)> = Some((84, -135));
    assert_eq!(maybe_lat_lon::encode(&foo), "84;-135");
    let back: Option<(i32, i32)> = maybe_lat_lon::decode("84;-135").unwrap();
    assert_eq!(back, foo);

    let empty: Option<(i32, i32)> = None;
    assert_eq!(maybe_lat_lon::encode(&empty), "");
    let back: Option<(i32, i32)> = maybe_lat_lon::decode("").unwrap();
    assert_eq!(back, empty);
}

#[test]
fn round_trips_concrete() {
    let lists: Vec<Vec<i32>> = vec![
        vec![],
        vec![0],
        vec![-1, 1],
        vec![i32::MIN, -1, 0, 1, i32::MAX],
    ];
    for l in lists {
        let cell = vec_num::encode(&l);
        let back: Vec<i32> = vec_num::decode(&cell).unwrap();
        assert_eq!(back, l);
    }

    let big: Vec<u64> = vec![0, 1, u64::MAX];
    let cell = vec_num::encode(&big);
    assert_eq!(cell, "0_1_18446744073709551615");
    let back: Vec<u64> = vec_num::decode(&cell).unwrap();
    assert_eq!(back, big);

    let m: Vec<Vec<u8>> = vec![vec![1], vec![2, 3], vec![4, 5, 6]];
    let cell = vec_vec_num::encode(&m);
    assert_eq!(cell, "1|2_3|4_5_6");
    let back: Vec<Vec<u8>> = vec_vec_num::decode(&cell).unwrap();
    assert_eq!(back, m);

    let dims: Option<(u8, u16)> = Some((255, 65535));
    let cell = maybe_image_size::encode(&dims);
    assert_eq!(cell, "255x65535");
    let back: Option<(u8, u16)> = maybe_image_size::decode(&cell).unwrap();
    assert_eq!(back, dims);
}

#[test]
fn empty_canonical_everywhere() {
    assert_eq!(vec_num::encode::<i32>(&vec![]), "");
    assert_eq!(vec_vec_num::encode::<i32>(&vec![]), "");
    assert_eq!(maybe_image_size::encode::<u8, u16>(&None), "");
    assert_eq!(maybe_lat_lon::encode::<i32>(&None), "");

    assert_eq!(vec_num::decode::<i32>("").unwrap(), Vec::<i32>::new());
    assert_eq!(vec_vec_num::decode::<i32>("").unwrap(), Vec::<Vec<i32>>::new());
    assert_eq!(maybe_image_size::decode::<u8, u16>("").unwrap(), None);
    assert_eq!(maybe_lat_lon::decode::<i32>("").unwrap(), None);
}

#[test]
fn delimiter_distinction() {
    let matrix: Vec<Vec<i32>> = vec![vec![1], vec![2]];
    let list: Vec<i32> = vec![1, 2];
    let matrix_cell = vec_vec_num::encode(&matrix);
    let list_cell = vec_num::encode(&list);
    assert_eq!(matrix_cell, "1|2");
    assert_eq!(list_cell, "1_2");
    assert_ne!(matrix_cell, list_cell);
}

#[test]
fn dims_malformed() {
    match maybe_image_size::decode::<u8, u16>("1x") {
        Err(DecodeError::Token { token }) => assert_eq!(token, ""),
        other => panic!("unexpected: {:?}", other),
    }
    match maybe_image_size::decode::<u8, u16>("x1") {
        Err(DecodeError::Token { token }) => assert_eq!(token, ""),
        other => panic!("unexpected: {:?}", other),
    }
    match maybe_image_size::decode::<u8, u16>("1") {
        Err(DecodeError::Format) => {}
        other => panic!("unexpected: {:?}", other),
    }
    let e = maybe_image_size::decode::<u8, u16>("1").unwrap_err();
    assert_eq!(e.message(), "bad image size format");
}

#[test]
fn coords_malformed() {
    match maybe_lat_lon::decode::<i32>("1;") {
        Err(DecodeError::Token { token }) => assert_eq!(token, ""),
        other => panic!("unexpected: {:?}", other),
    }
    match maybe_lat_lon::decode::<i32>("оis;2") {
        Err(DecodeError::Token { token }) => assert_eq!(token, "оis"),
        other => panic!("unexpected: {:?}", other),
    }
    match maybe_lat_lon::decode::<i32>("12") {
        Err(DecodeError::Format) => {}
        other => panic!("unexpected: {:?}", other),
    }
}

#[test]
fn first_separator_wins() {
    match maybe_image_size::decode::<u8, u16>("1x2x3") {
        Err(DecodeError::Token { token }) => assert_eq!(token, "2x3"),
        other => panic!("unexpected: {:?}", other),
    }
    match maybe_lat_lon::decode::<i32>("1;2;3") {
        Err(DecodeError::Token { token }) => assert_eq!(token, "2;3"),
        other => panic!("unexpected: {:?}", other),
    }
}

#[test]
fn end_to_end_row() {
    let list = vec_num::encode(&vec![-1i32, 1]);
    let matrix = vec_vec_num::encode(&vec![vec![-1i32, 1], vec![1, -1]]);
    let dims = maybe_image_size::encode::<u8, u16>(&Some((16, 1024)));
    let row = format!("{},{},{}", list, matrix, dims);
    assert_eq!(row, "-1_1,-1_1|1_-1,16x1024");

    let e1 = vec_num::encode::<i32>(&vec![]);
    let e2 = vec_vec_num::encode::<i32>(&vec![]);
    let e3 = maybe_image_size::encode::<u8, u16>(&None);
    let e4 = maybe_lat_lon::encode::<i32>(&None);
    let row = format!("{},{},{},{}", e1, e2, e3, e4);
    assert_eq!(row, ",,,");
}

#[test]
fn parse_is_lenient_encode_is_canonical() {
    let got: Vec<u8> = vec_num::decode("+5_007").unwrap();
    assert_eq!(got, vec![5, 7]);
    assert_eq!(vec_num::encode(&got), "5_7");

    let neg_zero: Vec<i32> = vec_num::decode("-0").unwrap();
    assert_eq!(neg_zero, vec![0]);
    assert_eq!(vec_num::encode(&neg_zero), "0");
}

#[test]
fn numeric_bounds() {
    assert_eq!(vec_num::decode::<u8>("255").unwrap(), vec![255]);
    assert!(vec_num::decode::<u8>("256").is_err());

    assert_eq!(vec_num::decode::<i32>("2147483647").unwrap(), vec![i32::MAX]);
    assert!(vec_num::decode::<i32>("2147483648").is_err());
    assert_eq!(vec_num::decode::<i32>("-2147483648").unwrap(), vec![i32::MIN]);
    assert!(vec_num::decode::<i32>("-2147483649").is_err());

    assert_eq!(
        vec_num::decode::<u64>("18446744073709551615").unwrap(),
        vec![u64::MAX]
    );
    assert!(vec_num::decode::<u64>("18446744073709551616").is_err());

    assert_eq!(
        vec_num::decode::<i64>("-9223372036854775808").unwrap(),
        vec![i64::MIN]
    );
    assert!(vec_num::decode::<i64>("-9223372036854775809").is_err());

    assert_eq!(vec_num::decode::<u16>("65535").unwrap(), vec![u16::MAX]);
    assert!(vec_num::decode::<u16>("65536").is_err());

    assert_eq!(vec_num::decode::<u32>("4294967295").unwrap(), vec![u32::MAX]);
    assert!(vec_num::decode::<u32>("4294967296").is_err());
}

#[test]
fn bad_tokens_are_named() {
    match vec_num::decode::<u8>("12_x_3") {
        Err(DecodeError::Token { token }) => {
            assert_eq!(token, "x");
        }
        other => panic!("unexpected: {:?}", other),
    }
    let e = vec_num::decode::<u8>("12_x_3").unwrap_err();
    assert_eq!(e.message(), "invalid number: x");

    match vec_num::decode::<i32>("1_ 2") {
        Err(DecodeError::Token { token }) => assert_eq!(token, " 2"),
        other => panic!("unexpected: {:?}", other),
    }
}

#[test]
fn empty_row_segments_are_rejected() {
    match vec_vec_num::decode::<i32>("1||2") {
        Err(DecodeError::Token { token }) => assert_eq!(token, ""),
        other => panic!("unexpected: {:?}", other),
    }
    match vec_vec_num::decode::<i32>("1|") {
        Err(DecodeError::Token { token }) => assert_eq!(token, ""),
        other => panic!("unexpected: {:?}", other),
    }
    assert!(vec_num::decode::<i32>("1__2").is_err());
    assert!(vec_num::decode::<i32>("_").is_err());
}
