use weechat::bytes::{be_u32, be_u8, split_str, take_str, ErrorKind, ParseError};
use weechat::client::{parse_frame, FrameError};
use weechat::parser::{
    parse_arr, parse_array, parse_hdata_halt, parse_infolist_halt, parse_objects_fn, parse_bare_string, parse_buf, parse_chr, parse_hdata, parse_header, parse_identifier,
    parse_info, parse_infolist, parse_int, parse_long, parse_pointer, parse_str, parse_time,
    parse_type, Halt, HdataKeys, InfolistItem, InfolistItems, WeechatHeader, WeechatId,
    WeechatObjects,
};

fn u32_be(n: u32) -> Vec<u8> {
    n.to_be_bytes().to_vec()
}

fn str32(s: &str) -> Vec<u8> {
    let mut v = u32_be(s.len() as u32);
    v.extend_from_slice(s.as_bytes());
    v
}

fn str8(s: &str) -> Vec<u8> {
    let mut v = vec![s.len() as u8];
    v.extend_from_slice(s.as_bytes());
    v
}

fn cat(parts: &[Vec<u8>]) -> Vec<u8> {
    let mut v = Vec::new();
    for p in parts {
        v.extend_from_slice(p);
    }
    v
}

#[test]
fn header_reads_length_and_flag() {
    let data = [0, 0, 0, 42, 1, 9];
    let (rest, h) = parse_header(&data).unwrap();
    assert_eq!(h, WeechatHeader { body_length: 42, compressed: true });
    assert_eq!(rest, &[9]);
    let data = [0x01, 0x02, 0x03, 0x04, 0];
    let (rest, h) = parse_header(&data).unwrap();
    assert_eq!(h, WeechatHeader { body_length: 0x01020304, compressed: false });
    assert!(rest.is_empty());
}

#[test]
fn header_flag_other_than_one_is_uncompressed() {
    let data = [0, 0, 0, 1, 2];
    let (_, h) = parse_header(&data).unwrap();
    assert!(!h.compressed);
}

#[test]
fn header_incomplete() {
    assert_eq!(parse_header(&[0, 0]), Err(ParseError::Incomplete(4)));
    assert_eq!(parse_header(&[0, 0, 0, 5]), Err(ParseError::Incomplete(1)));
}

#[test]
fn identifier_reads_string() {
    let data = cat(&[str32("_buffer_opened"), vec![7]]);
    let (rest, id) = parse_identifier(&data).unwrap();
    assert_eq!(id, WeechatId::ID("_buffer_opened"));
    assert_eq!(rest, &[7]);
}

#[test]
fn identifier_incomplete_body() {
    let data = [0, 0, 0, 5, b'a', b'b'];
    assert_eq!(parse_identifier(&data), Err(ParseError::Incomplete(5)));
}

#[test]
fn identifier_invalid_utf8() {
    let data = [0, 0, 0, 2, 0xff, 0xfe];
    assert_eq!(parse_identifier(&data), Err(ParseError::Error(ErrorKind::MapRes)));
}

#[test]
fn bare_string_and_empty() {
    let data = cat(&[str32(""), str32("x")]);
    let (rest, s) = parse_bare_string(&data).unwrap();
    assert_eq!(s, "");
    let (rest, s) = parse_bare_string(rest).unwrap();
    assert_eq!(s, "x");
    assert!(rest.is_empty());
}

#[test]
fn multibyte_utf8_string() {
    let data = str32("héllo");
    let (_, o) = parse_str(&data).unwrap();
    assert_eq!(o, WeechatObjects::WString("héllo"));
}

#[test]
fn int_is_signed_big_endian() {
    let data = [0xff, 0xff, 0xff, 0xfe];
    assert_eq!(parse_int(&data), Ok((&[][..], WeechatObjects::WInt(-2))));
    let data = [0, 0, 1, 0, 5];
    assert_eq!(parse_int(&data), Ok((&[5u8][..], WeechatObjects::WInt(256))));
    assert_eq!(parse_int(&[1]), Err(ParseError::Incomplete(4)));
}

#[test]
fn chr_reads_one_byte() {
    assert_eq!(parse_chr(b"Ab"), Ok((&b"b"[..], WeechatObjects::WChar('A'))));
    assert_eq!(parse_chr(&[0xe9]), Ok((&[][..], WeechatObjects::WChar('\u{e9}'))));
    assert_eq!(parse_chr(&[]), Err(ParseError::Incomplete(1)));
}

#[test]
fn string_objects() {
    let data = str32("abc");
    assert_eq!(parse_str(&data).unwrap().1, WeechatObjects::WString("abc"));
    assert_eq!(parse_long(&data).unwrap().1, WeechatObjects::WLong("abc"));
    assert_eq!(parse_buf(&data).unwrap().1, WeechatObjects::WBuffer("abc"));
    let data = str8("0x1a2b");
    assert_eq!(parse_pointer(&data).unwrap().1, WeechatObjects::WPointer("0x1a2b"));
    assert_eq!(parse_time(&data).unwrap().1, WeechatObjects::WTime("0x1a2b"));
}

#[test]
fn pointer_incomplete() {
    assert_eq!(parse_pointer(&[]), Err(ParseError::Incomplete(1)));
    assert_eq!(parse_pointer(&[3, b'a']), Err(ParseError::Incomplete(3)));
}

#[test]
fn type_tag() {
    assert_eq!(parse_type(b"hdaXYZ"), Ok((&b"XYZ"[..], WeechatObjects::WString("hda"))));
    assert_eq!(parse_type(b"hd"), Err(ParseError::Incomplete(3)));
}

#[test]
fn info_object() {
    let data = cat(&[str32("version"), str32("4.1.0"), vec![1]]);
    let (rest, o) = parse_info(&data).unwrap();
    assert_eq!(o, WeechatObjects::WInfo("version", "4.1.0"));
    assert_eq!(rest, &[1]);
}

#[test]
fn array_of_ints_reads_count_elements() {
    let data = cat(&[b"int".to_vec(), u32_be(3), u32_be(1), u32_be(2), u32_be(3), vec![9]]);
    let (rest, o) = parse_arr(&data).unwrap();
    assert_eq!(
        o,
        WeechatObjects::WArray(
            "int",
            3,
            vec![WeechatObjects::WInt(1), WeechatObjects::WInt(2), WeechatObjects::WInt(3)]
        )
    );
    assert_eq!(rest, &[9]);
}

#[test]
fn array_empty() {
    let data = cat(&[b"str".to_vec(), u32_be(0)]);
    assert_eq!(parse_arr(&data), Ok((&[][..], WeechatObjects::WArray("str", 0, vec![]))));
}

#[test]
fn array_lon_reads_longs_and_unknown_reads_strings() {
    let data = cat(&[b"lon".to_vec(), u32_be(1), str32("123")]);
    assert_eq!(
        parse_arr(&data).unwrap().1,
        WeechatObjects::WArray("lon", 1, vec![WeechatObjects::WLong("123")])
    );
    let data = cat(&[b"xyz".to_vec(), u32_be(1), str32("q")]);
    assert_eq!(
        parse_arr(&data).unwrap().1,
        WeechatObjects::WArray("xyz", 1, vec![WeechatObjects::WString("q")])
    );
}

#[test]
fn nested_array() {
    let inner = cat(&[b"chr".to_vec(), u32_be(2), b"ab".to_vec()]);
    let data = cat(&[b"arr".to_vec(), u32_be(1), inner]);
    assert_eq!(
        parse_arr(&data).unwrap().1,
        WeechatObjects::WArray(
            "arr",
            1,
            vec![WeechatObjects::WArray(
                "chr",
                2,
                vec![WeechatObjects::WChar('a'), WeechatObjects::WChar('b')]
            )]
        )
    );
}

#[test]
fn array_element_error_passes_through() {
    let data = cat(&[b"int".to_vec(), u32_be(2), u32_be(1), vec![0, 0]]);
    assert_eq!(parse_arr(&data), Err(ParseError::Incomplete(4)));
}

#[test]
fn hdata_keys_from_raw_values() {
    let keys = HdataKeys::from_raw_values("number:int,full_name:str");
    assert_eq!(keys.keys, vec![vec!["number", "int"], vec!["full_name", "str"]]);
    let keys = HdataKeys::from_raw_values("");
    assert_eq!(keys.keys, vec![vec![""]]);
    let keys = HdataKeys::from_raw_values("a,,b:c:d");
    assert_eq!(keys.keys, vec![vec!["a"], vec![""], vec!["b", "c", "d"]]);
}

#[test]
fn hdata_keys_join_back() {
    let raw = "nämé:str,x:int,,:";
    let keys = HdataKeys::from_raw_values(raw);
    let joined: Vec<String> = keys.keys.iter().map(|k| k.join(":")).collect();
    assert_eq!(joined.join(","), raw);
}

#[test]
fn split_str_pieces() {
    assert_eq!(split_str("a/b//c", b'/'), vec!["a", "b", "", "c"]);
    assert_eq!(split_str("/", b'/'), vec!["", ""]);
    assert_eq!(split_str("é", b'/'), vec!["é"]);
}

fn sample_hdata() -> Vec<u8> {
    cat(&[
        str32("buffer/lines"),
        str32("number:int,name:str"),
        u32_be(2),
        str8("0x1"),
        str8("0x2"),
        u32_be(1),
        str32("core"),
        str8("0x3"),
        str8("0x4"),
        u32_be(2),
        str32("irc"),
        vec![0xaa],
    ])
}

#[test]
fn hdata_reads_objects() {
    let data = sample_hdata();
    let (rest, o) = parse_hdata(&data).unwrap();
    assert_eq!(rest, &[0xaa]);
    assert_eq!(
        o,
        WeechatObjects::WHdata(
            "buffer/lines",
            HdataKeys { keys: vec![vec!["number", "int"], vec!["name", "str"]] },
            2,
            vec![
                (
                    vec![WeechatObjects::WPointer("0x1"), WeechatObjects::WPointer("0x2")],
                    vec![WeechatObjects::WInt(1), WeechatObjects::WString("core")]
                ),
                (
                    vec![WeechatObjects::WPointer("0x3"), WeechatObjects::WPointer("0x4")],
                    vec![WeechatObjects::WInt(2), WeechatObjects::WString("irc")]
                ),
            ]
        )
    );
}

#[test]
fn hdata_shape_matches_header() {
    let data = sample_hdata();
    if let WeechatObjects::WHdata(path, keys, count, objs) = parse_hdata(&data).unwrap().1 {
        assert_eq!(objs.len(), count as usize);
        for (ptrs, vals) in &objs {
            assert_eq!(ptrs.len(), path.matches('/').count() + 1);
            assert_eq!(vals.len(), keys.keys.len());
        }
    } else {
        panic!("not an hdata");
    }
}

#[test]
fn hdata_pointer_error_is_count() {
    let data = cat(&[str32("buffer"), str32("number:int"), u32_be(1), vec![2, 0xff, 0xfe]]);
    assert_eq!(parse_hdata(&data), Err(ParseError::Error(ErrorKind::Count)));
}

#[test]
fn hdata_incomplete_pointer() {
    let data = cat(&[str32("buffer"), str32("number:int"), u32_be(1)]);
    assert_eq!(parse_hdata(&data), Err(ParseError::Incomplete(1)));
}

#[test]
fn hdata_zero_objects() {
    let data = cat(&[str32("buffer"), str32("anything"), u32_be(0)]);
    assert_eq!(
        parse_hdata(&data),
        Ok((
            &[][..],
            WeechatObjects::WHdata("buffer", HdataKeys { keys: vec![vec!["anything"]] }, 0, vec![])
        ))
    );
}

fn sample_infolist() -> Vec<u8> {
    cat(&[
        str32("buffer"),
        u32_be(1),
        u32_be(2),
        str32("name"),
        b"str".to_vec(),
        str32("core"),
        str32("number"),
        b"int".to_vec(),
        u32_be(7),
    ])
}

#[test]
fn infolist_reads_items() {
    let data = sample_infolist();
    let (rest, o) = parse_infolist(&data).unwrap();
    assert!(rest.is_empty());
    assert_eq!(
        o,
        WeechatObjects::WInfoList(
            "buffer",
            1,
            vec![InfolistItems {
                count: 2,
                objects: vec![
                    InfolistItem { name: "name", value: WeechatObjects::WString("core") },
                    InfolistItem { name: "number", value: WeechatObjects::WInt(7) },
                ],
            }]
        )
    );
}

#[test]
fn infolist_unknown_type_is_count_error() {
    let data = cat(&[str32("b"), u32_be(1), u32_be(1), str32("t"), b"tim".to_vec(), str8("1")]);
    assert_eq!(parse_infolist(&data), Err(ParseError::Error(ErrorKind::Count)));
}

#[test]
fn infolist_incomplete_value() {
    let data = cat(&[str32("b"), u32_be(1), u32_be(1), str32("n"), b"int".to_vec(), vec![0]]);
    assert_eq!(parse_infolist(&data), Err(ParseError::Incomplete(4)));
}

#[test]
fn parsers_ignore_trailing_bytes() {
    let data = sample_hdata();
    let (rest, o) = parse_hdata(&data[..data.len() - 1]).unwrap();
    let (rest2, o2) = parse_hdata(&data).unwrap();
    assert_eq!(o, o2);
    assert_eq!(data.len() - 1 - rest.len(), data.len() - rest2.len());
    let data = sample_infolist();
    let mut longer = data.clone();
    longer.extend_from_slice(b"more");
    assert_eq!(parse_infolist(&data).unwrap().1, parse_infolist(&longer).unwrap().1);
}

#[test]
fn primitives() {
    assert_eq!(be_u8(&[5, 6]), Ok((&[6u8][..], 5)));
    assert_eq!(be_u32(&[0, 0, 1, 2, 3]), Ok((&[3u8][..], 258)));
    assert_eq!(take_str(b"abcd", 2), Ok((&b"cd"[..], "ab")));
    assert_eq!(take_str(b"ab", 3), Err(ParseError::Incomplete(3)));
    assert_eq!(take_str(&[0xc3, 0x28], 2), Err(ParseError::Error(ErrorKind::MapRes)));
}

fn frame(body: &[u8]) -> Vec<u8> {
    let mut v = u32_be(0);
    v.push(0);
    v.extend_from_slice(&str32("(1)"));
    v.extend_from_slice(b"hda");
    v.extend_from_slice(body);
    let total = v.len() as u32;
    v[..4].copy_from_slice(&total.to_be_bytes());
    v
}

#[test]
fn frame_reads_all_parts() {
    let data = frame(&sample_hdata());
    let f = parse_frame(&data).unwrap();
    assert_eq!(f.header, WeechatHeader { body_length: data.len() as u32, compressed: false });
    assert_eq!(f.id, WeechatId::ID("(1)"));
    assert_eq!(f.object_type, WeechatObjects::WString("hda"));
    assert_eq!(f.hdata, Ok(parse_hdata(&sample_hdata()).unwrap().1));
}

#[test]
fn frame_errors() {
    assert_eq!(parse_frame(&[0, 0]).unwrap_err(), FrameError::Header(ParseError::Incomplete(4)));
    let header = WeechatHeader { body_length: 9, compressed: false };
    assert_eq!(
        parse_frame(&[0, 0, 0, 9, 0, 0, 0]).unwrap_err(),
        FrameError::Identifier(header, ParseError::Incomplete(4))
    );
    let mut data = vec![0, 0, 0, 9, 0];
    data.extend_from_slice(&str32("x"));
    data.extend_from_slice(b"h");
    assert_eq!(
        parse_frame(&data).unwrap_err(),
        FrameError::Type(header, WeechatId::ID("x"), ParseError::Incomplete(3))
    );
}

#[test]
fn frame_unsupported_hdata() {
    let body = cat(&[str32("buffer"), str32("number:xyz"), u32_be(1), str8("0x1"), u32_be(1)]);
    let data = frame(&body);
    assert_eq!(parse_frame(&data).unwrap().hdata, Err(Halt::Unsupported));
    let body = cat(&[str32("buffer"), str32("number"), u32_be(1), str8("0x1")]);
    assert_eq!(parse_frame(&frame(&body)).unwrap().hdata, Err(Halt::Unsupported));
    let body = cat(&[str32("buffer"), str32("number:int"), u32_be(1), str8("0x1"), vec![0]]);
    assert_eq!(parse_frame(&frame(&body)).unwrap().hdata, Err(Halt::Unsupported));
}

#[test]
fn frame_hdata_with_unsupported_array() {
    let body = cat(&[
        str32("buffer"),
        str32("v:arr"),
        u32_be(1),
        str8("0x1"),
        b"htb".to_vec(),
        u32_be(0),
    ]);
    assert_eq!(parse_frame(&frame(&body)).unwrap().hdata, Err(Halt::Unsupported));
}

#[test]
fn infolist_shape_matches_counts() {
    let data = cat(&[
        str32("l"),
        u32_be(2),
        u32_be(1),
        str32("a"),
        b"chr".to_vec(),
        b"z".to_vec(),
        u32_be(0),
    ]);
    if let WeechatObjects::WInfoList(_, count, items) = parse_infolist(&data).unwrap().1 {
        assert_eq!(items.len(), count as usize);
        for item in &items {
            assert_eq!(item.objects.len(), item.count as usize);
        }
    } else {
        panic!("not an infolist");
    }
}

#[test]
fn array_prefix_and_count() {
    let data = cat(&[b"ptr".to_vec(), u32_be(2), str8("0x1"), str8("0x2")]);
    let mut longer = data.clone();
    longer.extend_from_slice(&[1, 2, 3]);
    let (rest, a) = parse_arr(&data).unwrap();
    let (rest2, b) = parse_arr(&longer).unwrap();
    assert_eq!(a, b);
    assert!(rest.is_empty());
    assert_eq!(rest2, &[1, 2, 3]);
    if let WeechatObjects::WArray(_, n, v) = a {
        assert_eq!(v.len(), n as usize);
    }
}

#[test]
fn header_prefix() {
    assert_eq!(parse_header(&[0, 0, 0, 3, 1]).unwrap().1, parse_header(&[0, 0, 0, 3, 1, 5, 6]).unwrap().1);
}

#[test]
fn hdata_reads_lon_and_lng_keys_as_long() {
    let data = cat(&[
        str32("buffer"),
        str32("a:lon,b:lng"),
        u32_be(1),
        str8("0x1"),
        str32("12"),
        str32("34"),
    ]);
    let (_, o) = parse_hdata(&data).unwrap();
    if let WeechatObjects::WHdata(_, _, _, objs) = o {
        assert_eq!(objs[0].1, vec![WeechatObjects::WLong("12"), WeechatObjects::WLong("34")]);
    } else {
        panic!("not an hdata");
    }
}

#[test]
fn infolist_rejects_lon_variable() {
    let data = cat(&[str32("b"), u32_be(1), u32_be(1), str32("n"), b"lon".to_vec(), str32("99")]);
    assert_eq!(parse_infolist(&data), Err(ParseError::Error(ErrorKind::Count)));
    let data = cat(&[str32("b"), u32_be(1), u32_be(1), str32("n"), b"lng".to_vec(), str32("99")]);
    assert_eq!(
        parse_infolist(&data).unwrap().1,
        WeechatObjects::WInfoList(
            "b",
            1,
            vec![InfolistItems {
                count: 1,
                objects: vec![InfolistItem { name: "n", value: WeechatObjects::WLong("99") }],
            }]
        )
    );
}

#[test]
fn objects_fn_reads_values_by_key_type() {
    let keys = HdataKeys::from_raw_values("n:int,c:chr,s:str,b:buf,p:ptr,t:tim");
    let data = cat(&[
        u32_be(5),
        b"x".to_vec(),
        str32("abc"),
        str32("d"),
        str8("0xf"),
        str8("17"),
        vec![1, 2],
    ]);
    let (rest, objs) = parse_objects_fn(&data, &keys, "", &vec![]).unwrap();
    assert_eq!(rest, &[1, 2]);
    assert_eq!(
        objs,
        vec![
            WeechatObjects::WInt(5),
            WeechatObjects::WChar('x'),
            WeechatObjects::WString("abc"),
            WeechatObjects::WBuffer("d"),
            WeechatObjects::WPointer("0xf"),
            WeechatObjects::WTime("17"),
        ]
    );
    // The path and the pointers do not take part in the reading.
    let ptrs = vec![WeechatObjects::WPointer("0x9")];
    assert_eq!(parse_objects_fn(&data, &keys, "a/b", &ptrs), Ok((rest, objs)));
}

#[test]
fn objects_fn_concatenation_and_type_parts() {
    let k1 = HdataKeys::from_raw_values("a:int");
    let k2 = HdataKeys::from_raw_values("b:str");
    let k12 = HdataKeys::from_raw_values("a:int,b:str");
    let renamed = HdataKeys::from_raw_values("x:int:extra,y:str");
    let data = cat(&[u32_be(7), str32("hi"), vec![3]]);
    let (r1, o1) = parse_objects_fn(&data, &k1, "", &vec![]).unwrap();
    let (r2, o2) = parse_objects_fn(r1, &k2, "", &vec![]).unwrap();
    let (r12, o12) = parse_objects_fn(&data, &k12, "", &vec![]).unwrap();
    assert_eq!(r12, r2);
    let mut joined = o1;
    joined.extend(o2);
    assert_eq!(o12, joined);
    assert_eq!(parse_objects_fn(&data, &renamed, "", &vec![]).unwrap().1, o12);
}

#[test]
fn halting_variants_report_unsupported() {
    let data = cat(&[b"htb".to_vec(), u32_be(0)]);
    assert_eq!(parse_array(&data), Err(Halt::Unsupported));
    let data = cat(&[b"int".to_vec(), u32_be(1), vec![0]]);
    assert_eq!(parse_array(&data), Err(Halt::Failed(ParseError::Incomplete(4))));
    let body = cat(&[str32("buffer"), str32("k:zzz"), u32_be(1), str8("0x1")]);
    assert_eq!(parse_hdata_halt(&body), Err(Halt::Unsupported));
    let body = cat(&[str32("buffer"), str32("k:int"), u32_be(1), str8("0x1"), vec![0]]);
    assert_eq!(parse_hdata_halt(&body), Err(Halt::Unsupported));
    assert_eq!(parse_hdata_halt(&sample_hdata()), Ok(parse_hdata(&sample_hdata()).unwrap()));
    let data = cat(&[
        str32("b"),
        u32_be(1),
        u32_be(1),
        str32("v"),
        b"arr".to_vec(),
        b"inl".to_vec(),
        u32_be(0),
    ]);
    assert_eq!(parse_infolist_halt(&data), Err(Halt::Unsupported));
    assert_eq!(parse_infolist_halt(&sample_infolist()), Ok(parse_infolist(&sample_infolist()).unwrap()));
}
