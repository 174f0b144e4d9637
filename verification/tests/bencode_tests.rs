use bittorrent_client::decode::{decode, decode_checked};
use bittorrent_client::encode::encode;
use bittorrent_client::parse::{parse, parse_checked, BencodeType2};
use bittorrent_client::serialise::serialise;
use bittorrent_client::BencodeType;

#[test]
fn decode_positive_integer() {
    let integer = 42;
    let bencoded_data = format!("i{}e", integer);
    let expected_output = BencodeType::Integer(integer);
    let output = decode(&bencoded_data[..]);
    assert_eq!(output, expected_output);
}

#[test]
fn decode_negative_integer() {
    let integer = -42;
    let bencoded_data = format!("i{}e", integer);
    let expected_output = BencodeType::Integer(integer);
    let output = decode(&bencoded_data[..]);
    assert_eq!(output, expected_output);
}

#[test]
fn decode_byte_string() {
    let string = "hello";
    let bencoded_data = format!("{}:{}", string.len(), string);
    let expected_output = BencodeType::ByteString(string.to_string());
    let output = decode(&bencoded_data);
    assert_eq!(output, expected_output);
}

#[test]
fn decode_list_containing_strings_and_ints() {
    let integer = 42;
    let string = "hello";
    let bencoded_data = format!("li{}e{}:{}e", integer, string.len(), string);
    let expected_output = BencodeType::List(vec![
        BencodeType::Integer(integer),
        BencodeType::ByteString(string.to_string()),
    ]);
    let output = decode(&bencoded_data);
    assert_eq!(output, expected_output);
}

#[test]
fn decode_dict_keeps_first_appearance_order_and_last_value() {
    let output = decode("d3:fooi1e3:bar2:hi3:fooi7ee");
    let expected_output = BencodeType::Dict(vec![
        ("foo".to_string(), BencodeType::Integer(7)),
        ("bar".to_string(), BencodeType::ByteString("hi".to_string())),
    ]);
    assert_eq!(output, expected_output);
}

#[test]
fn decode_reads_past_the_end_of_nested_lists() {
    let output = decode("lli1eei2ee");
    let expected_output = BencodeType::List(vec![
        BencodeType::List(vec![BencodeType::Integer(1)]),
        BencodeType::Integer(2),
    ]);
    assert_eq!(output, expected_output);
}

#[test]
fn decode_checked_rejects_text_that_is_no_value() {
    assert_eq!(decode_checked("x"), None);
    assert_eq!(decode_checked("i4"), None);
    assert_eq!(decode_checked("i+4e"), None);
    assert_eq!(decode_checked("9:abc"), None);
    assert_eq!(decode_checked("i4e"), Some(BencodeType::Integer(4)));
}

#[test]
fn encode_integer() {
    let integer = 42;
    let data = BencodeType::Integer(integer);
    let expected_output = format!("i{}e", integer);
    let output = encode(data);
    assert_eq!(output, expected_output);
}

#[test]
fn encode_byte_string() {
    let string = "hello";
    let data = BencodeType::ByteString(string.to_string());
    let expected_output = format!("{}:{}", string.len(), string);
    let output = encode(data);
    assert_eq!(output, expected_output);
}

#[test]
fn encode_list() {
    let integer = 42;
    let string = "hello";
    let data = BencodeType::List(vec![
        BencodeType::Integer(integer),
        BencodeType::ByteString(string.to_string()),
    ]);
    let expected_output = format!("li{}e{}:{}e", integer, string.len(), string);
    let output = encode(data);
    assert_eq!(output, expected_output);
}

#[test]
fn encode_counts_string_length_in_bytes() {
    let output = encode(BencodeType::ByteString("héllo".to_string()));
    assert_eq!(output, "6:héllo");
    assert_eq!(encode(BencodeType::Integer(i64::MIN)), "i-9223372036854775808e");
}

#[test]
fn decode_reads_back_what_encode_writes() {
    let value = BencodeType::List(vec![
        BencodeType::List(vec![BencodeType::Integer(0), BencodeType::ByteString(String::new())]),
        BencodeType::Integer(-3),
        BencodeType::ByteString("12:ab".to_string()),
        BencodeType::List(vec![]),
    ]);
    let expected = BencodeType::List(vec![
        BencodeType::List(vec![BencodeType::Integer(0), BencodeType::ByteString(String::new())]),
        BencodeType::Integer(-3),
        BencodeType::ByteString("12:ab".to_string()),
        BencodeType::List(vec![]),
    ]);
    assert_eq!(decode(&encode(value)), expected);
}

#[test]
fn parse_byte_string() {
    let data = b"5:hello5:world";
    let res = parse(&data[..]);
    match res {
        BencodeType2::ByteString(val) => assert_eq!(val, b"hello"),
        _ => panic!(),
    };
}

#[test]
fn parse_integer() {
    let data = b"i42e5:hello";
    let res = parse(&data[..]);
    match res {
        BencodeType2::Integer(val) => assert_eq!(val, 42),
        _ => panic!(),
    }
}

#[test]
fn parse_list_containing_single_bytestring() {
    let data = b"l5:helloe";
    let res = parse(&data[..]);
    match res {
        BencodeType2::List(val) => {
            assert_eq!(val, vec![BencodeType2::ByteString(b"hello".to_vec())])
        }
        _ => panic!(),
    }
}

#[test]
fn parse_list_containing_multiple_bytestrings() {
    let data = b"l5:hello5:worlde";
    let res = parse(&data[..]);
    match res {
        BencodeType2::List(val) => {
            assert_eq!(
                val,
                vec![
                    BencodeType2::ByteString(b"hello".to_vec()),
                    BencodeType2::ByteString(b"world".to_vec())
                ]
            )
        }
        _ => panic!(),
    }
}

#[test]
fn parse_list_containing_bytestring_and_integer() {
    let data = b"li42e5:helloe";
    let res = parse(&data[..]);
    match res {
        BencodeType2::List(val) => {
            assert_eq!(
                val,
                vec![
                    BencodeType2::Integer(42),
                    BencodeType2::ByteString(b"hello".to_vec()),
                ]
            )
        }
        _ => panic!(),
    }
}

#[test]
fn parse_nested_list() {
    let data = b"li42el5:hello5:worldee";
    let res = parse(&data[..]);
    match res {
        BencodeType2::List(val) => {
            assert_eq!(
                val,
                vec![
                    BencodeType2::Integer(42),
                    BencodeType2::List(vec![
                        BencodeType2::ByteString(b"hello".to_vec()),
                        BencodeType2::ByteString(b"world".to_vec()),
                    ])
                ]
            )
        }
        _ => panic!(),
    }
}

#[test]
fn parse_dict_containing_single_key_bytestring_value() {
    let data = b"d5:hello5:worlde";
    let res = parse(&data[..]);
    let expected_map = vec![(
        b"hello".to_vec(),
        BencodeType2::ByteString(b"world".to_vec()),
    )];
    match res {
        BencodeType2::Dict(val) => assert_eq!(val, expected_map),
        _ => panic!(),
    }
}

#[test]
fn parse_dict_containing_multiple_keys_bytestring_value() {
    let data = b"d5:hello5:world3:foo3:bare";
    let res = parse(&data[..]);
    let expected_map = vec![
        (
            b"hello".to_vec(),
            BencodeType2::ByteString(b"world".to_vec()),
        ),
        (b"foo".to_vec(), BencodeType2::ByteString(b"bar".to_vec())),
    ];
    match res {
        BencodeType2::Dict(val) => assert_eq!(val, expected_map),
        _ => panic!(),
    }
}

#[test]
fn parse_dict_containing_multiple_keys_bytestring_and_integer_values() {
    let data = b"d5:hello5:world3:fooi42ee";
    let res = parse(&data[..]);
    let expected_map = vec![
        (
            b"hello".to_vec(),
            BencodeType2::ByteString(b"world".to_vec()),
        ),
        (b"foo".to_vec(), BencodeType2::Integer(42)),
    ];
    match res {
        BencodeType2::Dict(val) => assert_eq!(val, expected_map),
        _ => panic!(),
    }
}

#[test]
fn parse_dict_containing_single_key_list_value() {
    let data = b"d4:datal5:hello5:worldee";
    let res = parse(&data[..]);
    let expected_map = vec![(
        b"data".to_vec(),
        BencodeType2::List(vec![
            BencodeType2::ByteString(b"hello".to_vec()),
            BencodeType2::ByteString(b"world".to_vec()),
        ]),
    )];
    match res {
        BencodeType2::Dict(val) => assert_eq!(val, expected_map),
        _ => panic!(),
    }
}

#[test]
fn parse_reads_a_dictionary_inside_a_dictionary() {
    let res = parse(b"d8:announce5:hello4:infod4:name5:helloee");
    let expected = BencodeType2::Dict(vec![
        (b"announce".to_vec(), BencodeType2::ByteString(b"hello".to_vec())),
        (
            b"info".to_vec(),
            BencodeType2::Dict(vec![(b"name".to_vec(), BencodeType2::ByteString(b"hello".to_vec()))]),
        ),
    ]);
    assert_eq!(res, expected);
}

#[test]
fn parse_reads_empty_lists_and_dictionaries_and_signed_lengths() {
    assert_eq!(parse_checked(b"le"), Some(BencodeType2::List(vec![])));
    assert_eq!(parse_checked(b"de"), Some(BencodeType2::Dict(vec![])));
    assert_eq!(
        parse_checked(b"ld1:ai1eee"),
        Some(BencodeType2::List(vec![BencodeType2::Dict(vec![(b"a".to_vec(), BencodeType2::Integer(1))])]))
    );
    assert_eq!(parse_checked(b"x"), None);
    assert_eq!(parse_checked(b"+2:ab"), Some(BencodeType2::ByteString(b"ab".to_vec())));
    assert_eq!(parse_checked(b"i-0e"), Some(BencodeType2::Integer(0)));
}

#[test]
fn serialise_integer() {
    let integer = 42;
    let data = BencodeType2::Integer(integer);
    let expected_output = b"i42e".to_vec();
    let output = serialise(data);
    assert_eq!(output, expected_output);
}

#[test]
fn serialise_bytestring() {
    let bytestring = b"hello";
    let data = BencodeType2::ByteString(bytestring.to_vec());
    let expected_output = b"5:hello".to_vec();
    let output = serialise(data);
    assert_eq!(output, expected_output);
}

#[test]
fn serialise_dict_sorts_keys_and_list_keeps_order() {
    let data = BencodeType2::Dict(vec![
        (b"zeta".to_vec(), BencodeType2::Integer(1)),
        (
            b"alpha".to_vec(),
            BencodeType2::List(vec![BencodeType2::Integer(2), BencodeType2::ByteString(b"x".to_vec())]),
        ),
    ]);
    assert_eq!(serialise(data), b"d5:alphali2e1:xe4:zetai1ee".to_vec());
}

#[test]
fn parse_reads_back_what_serialise_writes() {
    let data = BencodeType2::Dict(vec![
        (b"a".to_vec(), BencodeType2::Integer(-5)),
        (b"b".to_vec(), BencodeType2::List(vec![BencodeType2::ByteString(b"q".to_vec())])),
        (b"c".to_vec(), BencodeType2::Dict(vec![(b"x".to_vec(), BencodeType2::List(vec![]))])),
    ]);
    let expected = BencodeType2::Dict(vec![
        (b"a".to_vec(), BencodeType2::Integer(-5)),
        (b"b".to_vec(), BencodeType2::List(vec![BencodeType2::ByteString(b"q".to_vec())])),
        (b"c".to_vec(), BencodeType2::Dict(vec![(b"x".to_vec(), BencodeType2::List(vec![]))])),
    ]);
    assert_eq!(parse(&serialise(data)), expected);
}
