use weechat::bytes::{be_u32, be_u8, ParseError};
use weechat::parser::{parse_chr, parse_int, WeechatObjects};

fn from_nom<T>(r: nom::IResult<&[u8], T>) -> Result<(&[u8], T), ParseError> {
    match r {
        Ok(x) => Ok(x),
        Err(nom::Err::Incomplete(nom::Needed::Size(n))) => Err(ParseError::Incomplete(n)),
        Err(_) => panic!("unexpected nom error"),
    }
}

#[test]
fn integers_agree_with_nom() {
    let inputs: Vec<Vec<u8>> = vec![
        vec![],
        vec![1],
        vec![1, 2, 3],
        vec![0xff, 0xff, 0xff, 0xff],
        vec![0x80, 0, 0, 1, 9, 9],
        vec![0x12, 0x34, 0x56, 0x78],
    ];
    for input in &inputs {
        assert_eq!(be_u32(input), from_nom(nom::be_u32(input)));
        assert_eq!(be_u8(input), from_nom(nom::be_u8(input)));
        let ours = parse_int(input).map(|(r, o)| (r, o));
        let theirs = from_nom(nom::be_i32(input)).map(|(r, v)| (r, WeechatObjects::WInt(v)));
        assert_eq!(ours, theirs);
        let ours = parse_chr(input);
        let theirs = from_nom(nom::anychar(&input[..])).map(|(r, c)| (r, WeechatObjects::WChar(c)));
        assert_eq!(ours, theirs);
    }
}
