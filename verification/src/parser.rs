//! Parsers for the messages of the WeeChat relay protocol.

use vstd::prelude::*;
use vstd::string::*;
use crate::bytes::{
    ErrorKind, ParseError, Step, be_u32, be_u8, take_str, is_rest_of, lemma_rest_of_rest, rest_ok,
    step_of, str_step_of, spec_split, split_str,
};
use crate::laws::lemma_hdata_values_never_fail;
use crate::grammar::{
    Kind, ObjectModel, array_kind, count_byte, entry_item, hdata_key_kind, infolist_kind,
    item_item, lemma_elements_stop, lemma_hdata_values_stop, lemma_many_stop, pointer_item,
    spec_array, spec_elements, spec_hdata, spec_hdata_entry, spec_hdata_keys, spec_hdata_values,
    spec_header, spec_info, spec_infolist, spec_infolist_item, spec_infolist_var, spec_keys,
    spec_many, spec_object, spec_string32, spec_string8, spec_type, tag3, unsupported_array_tag,
    var_item,
};

verus! {

/// The objects of the relay protocol.
#[derive(Debug, PartialEq)]
pub enum WeechatObjects<'a> {
    WString(&'a str),
    WChar(char),
    WInt(i32),
    WLong(&'a str),
    WBuffer(&'a str),
    WPointer(&'a str),
    WTime(&'a str),
    WHashTable,
    WHdata(&'a str, HdataKeys<'a>, u32, Vec<(Vec<WeechatObjects<'a>>, Vec<WeechatObjects<'a>>)>),
    WInfo(&'a str, &'a str),
    WInfoList(&'a str, u32, Vec<InfolistItems<'a>>),
    WArray(&'a str, u32, Vec<WeechatObjects<'a>>),
}

/// The keys of an hdata object: each key is its `name:type` parts.
#[derive(Debug, PartialEq)]
pub struct HdataKeys<'a> {
    pub keys: Vec<Vec<&'a str>>,
}

/// One variable of an infolist item.
#[derive(Debug, PartialEq)]
pub struct InfolistItem<'a> {
    pub name: &'a str,
    pub value: WeechatObjects<'a>,
}

/// One item of an infolist: its variables.
#[derive(Debug, PartialEq)]
pub struct InfolistItems<'a> {
    pub count: u32,
    pub objects: Vec<InfolistItem<'a>>,
}

/// Why an object parser stopped: the bytes failed the grammar, or they hold
/// an object that the parser does not handle.
#[derive(Debug, Clone, Copy, PartialEq, Eq, Structural)]
pub enum Halt {
    Failed(ParseError),
    Unsupported,
}

impl<'a> HdataKeys<'a> {
    /// The keys, each part by its UTF-8 bytes.
    pub open spec fn model(&self) -> Seq<Seq<Seq<u8>>> {
        Seq::new(self.keys@.len(), |i: int| parts_model(self.keys@[i]))
    }
}

/// The UTF-8 bytes of each of the strings.
pub open spec fn parts_model(v: Vec<&str>) -> Seq<Seq<u8>> {
    Seq::new(v@.len(), |j: int| v@[j].spec_bytes())
}

impl<'a> WeechatObjects<'a> {
    /// The abstract value of the object.
    pub open spec fn model(&self) -> ObjectModel
        decreases self,
    {
        match self {
            WeechatObjects::WString(s) => ObjectModel::Str(s.spec_bytes()),
            WeechatObjects::WChar(c) => ObjectModel::Chr(*c),
            WeechatObjects::WInt(i) => ObjectModel::Int(*i),
            WeechatObjects::WLong(s) => ObjectModel::Long(s.spec_bytes()),
            WeechatObjects::WBuffer(s) => ObjectModel::Buffer(s.spec_bytes()),
            WeechatObjects::WPointer(s) => ObjectModel::Pointer(s.spec_bytes()),
            WeechatObjects::WTime(s) => ObjectModel::Time(s.spec_bytes()),
            WeechatObjects::WHashTable => ObjectModel::HashTable,
            WeechatObjects::WHdata(p, k, c, v) => ObjectModel::Hdata(
                p.spec_bytes(),
                k.model(),
                *c,
                Seq::new(
                    v@.len(),
                    |i: int|
                        {
                            let pair = v@[i];
                            (
                                Seq::new(
                                    pair.0@.len(),
                                    |j: int|
                                        if 0 <= i < v@.len() && 0 <= j < pair.0@.len() {
                                            pair.0@[j].model()
                                        } else {
                                            ObjectModel::HashTable
                                        },
                                ),
                                Seq::new(
                                    pair.1@.len(),
                                    |j: int|
                                        if 0 <= i < v@.len() && 0 <= j < pair.1@.len() {
                                            pair.1@[j].model()
                                        } else {
                                            ObjectModel::HashTable
                                        },
                                ),
                            )
                        },
                ),
            ),
            WeechatObjects::WInfo(n, s) => ObjectModel::Info(n.spec_bytes(), s.spec_bytes()),
            WeechatObjects::WInfoList(n, c, v) => ObjectModel::InfoList(
                n.spec_bytes(),
                *c,
                Seq::new(
                    v@.len(),
                    |i: int|
                        {
                            let items = v@[i];
                            (
                                items.count,
                                Seq::new(
                                    items.objects@.len(),
                                    |j: int|
                                        {
                                            let item = items.objects@[j];
                                            (
                                                item.name.spec_bytes(),
                                                if 0 <= i < v@.len() && 0 <= j
                                                    < items.objects@.len() {
                                                    item.value.model()
                                                } else {
                                                    ObjectModel::HashTable
                                                },
                                            )
                                        },
                                ),
                            )
                        },
                ),
            ),
            WeechatObjects::WArray(t, c, v) => ObjectModel::Array(
                t.spec_bytes(),
                *c,
                Seq::new(
                    v@.len(),
                    |i: int|
                        if 0 <= i < v@.len() {
                            v@[i].model()
                        } else {
                            ObjectModel::HashTable
                        },
                ),
            ),
        }
    }
}

/// The abstract value of an array holds the abstract values of its elements.
pub proof fn lemma_array_model(o: WeechatObjects)
    requires
        o is WArray,
    ensures
        o.model() == (match o {
            WeechatObjects::WArray(t, c, v) => ObjectModel::Array(t.spec_bytes(), c, models(v@)),
            _ => ObjectModel::HashTable,
        }),
{
    match o {
        WeechatObjects::WArray(t, c, v) => {
            assert(o.model()->Array_2 =~= models(v@));
        },
        _ => {},
    }
}

/// The abstract values of a sequence of objects.
pub open spec fn models(v: Seq<WeechatObjects>) -> Seq<ObjectModel> {
    v.map_values(|o: WeechatObjects| o.model())
}

/// The step that an executed object parser took on `input`.
pub open spec fn obj_step_of(
    input: Seq<u8>,
    res: Result<(&[u8], WeechatObjects), ParseError>,
) -> Step<ObjectModel> {
    match res {
        Ok((rest, v)) => Step::Done(v.model(), (input.len() - rest@.len()) as nat),
        Err(e) => Step::Failed(e),
    }
}

/// The step that an executed object parser that may halt took on `input`.
pub open spec fn halt_step_of(
    input: Seq<u8>,
    res: Result<(&[u8], WeechatObjects), Halt>,
) -> Step<ObjectModel> {
    match res {
        Ok((rest, v)) => Step::Done(v.model(), (input.len() - rest@.len()) as nat),
        Err(Halt::Failed(e)) => Step::Failed(e),
        Err(Halt::Unsupported) => Step::Aborted,
    }
}

/// Reads a string with a 4-byte length before it.
fn parse_string32<'a>(input: &'a [u8]) -> (res: Result<(&'a [u8], &'a str), ParseError>)
    ensures
        str_step_of(input@, res) == spec_string32(input@),
        rest_ok(input@, res),
{
    let (rest, n) = be_u32(input)?;
    let (rest2, s) = take_str(rest, n as usize)?;
    proof {
        lemma_rest_of_rest(rest2@, rest@, input@);
    }
    Ok((rest2, s))
}

/// Reads a string with a 1-byte length before it.
fn parse_string8<'a>(input: &'a [u8]) -> (res: Result<(&'a [u8], &'a str), ParseError>)
    ensures
        str_step_of(input@, res) == spec_string8(input@),
        rest_ok(input@, res),
{
    let (rest, n) = be_u8(input)?;
    let (rest2, s) = take_str(rest, n as usize)?;
    proof {
        lemma_rest_of_rest(rest2@, rest@, input@);
    }
    Ok((rest2, s))
}

/// A signed 32-bit integer (`int`).
pub fn parse_int<'a>(input: &'a [u8]) -> (res: Result<(&'a [u8], WeechatObjects<'a>), ParseError>)
    ensures
        obj_step_of(input@, res) == spec_object(Kind::Int, input@),
        rest_ok(input@, res),
{
    let (rest, v) = be_u32(input)?;
    Ok((rest, WeechatObjects::WInt(v as i32)))
}

/// A character (`chr`): one byte, read as the character with that code.
pub fn parse_chr<'a>(input: &'a [u8]) -> (res: Result<(&'a [u8], WeechatObjects<'a>), ParseError>)
    ensures
        obj_step_of(input@, res) == spec_object(Kind::Chr, input@),
        rest_ok(input@, res),
{
    let (rest, b) = be_u8(input)?;
    Ok((rest, WeechatObjects::WChar(b as char)))
}

/// The step that an executed parser of a sequence of objects took on `input`.
pub open spec fn objects_step_of(
    input: Seq<u8>,
    res: Result<(&[u8], Vec<WeechatObjects>), Halt>,
) -> Step<Seq<ObjectModel>> {
    match res {
        Ok((rest, v)) => Step::Done(models(v@), (input.len() - rest@.len()) as nat),
        Err(Halt::Failed(e)) => Step::Failed(e),
        Err(Halt::Unsupported) => Step::Aborted,
    }
}

/// Whether the bytes of `t` are the type tag `a b c`.
fn is_tag(t: &str, a: u8, b: u8, c: u8) -> (r: bool)
    ensures
        r == (t.spec_bytes() == tag3(a, b, c)),
{
    let bs = t.as_bytes();
    if bs.len() == 3 && bs[0] == a && bs[1] == b && bs[2] == c {
        assert(bs@ =~= tag3(a, b, c));
        true
    } else {
        false
    }
}

/// The element type of an array with type tag `t`.
fn array_kind_of(t: &str) -> (k: Kind)
    ensures
        k == array_kind(t.spec_bytes()),
{
    if is_tag(t, 0x69, 0x6e, 0x74) /* int */ {
        Kind::Int
    } else if is_tag(t, 0x6c, 0x6f, 0x6e) /* lon */ {
        Kind::Long
    } else if is_tag(t, 0x63, 0x68, 0x72) /* chr */ {
        Kind::Chr
    } else if is_tag(t, 0x70, 0x74, 0x72) /* ptr */ {
        Kind::Ptr
    } else if is_tag(t, 0x62, 0x75, 0x66) /* buf */ {
        Kind::Buf
    } else if is_tag(t, 0x61, 0x72, 0x72) /* arr */ {
        Kind::Arr
    } else if is_tag(t, 0x74, 0x69, 0x6d) /* tim */ {
        Kind::Tim
    } else {
        Kind::Str
    }
}

/// Whether the parser leaves arrays with type tag `t` unhandled.
fn is_unsupported_array_tag(t: &str) -> (r: bool)
    ensures
        r == unsupported_array_tag(t.spec_bytes()),
{
    is_tag(t, 0x68, 0x74, 0x62) /* htb */ || is_tag(t, 0x68, 0x64, 0x61) /* hda */ || is_tag(t, 0x69, 0x6e, 0x66) /* inf */
        || is_tag(t, 0x69, 0x6e, 0x6c) /* inl */
}

/// A string (`str`): a 4-byte length, then that many bytes of UTF-8.
pub fn parse_str<'a>(input: &'a [u8]) -> (res: Result<(&'a [u8], WeechatObjects<'a>), ParseError>)
    ensures
        obj_step_of(input@, res) == spec_object(Kind::Str, input@),
        rest_ok(input@, res),
{
    let (rest, s) = parse_string32(input)?;
    Ok((rest, WeechatObjects::WString(s)))
}

/// A long integer (`lon`), sent as a string with a 4-byte length.
pub fn parse_long<'a>(input: &'a [u8]) -> (res: Result<(&'a [u8], WeechatObjects<'a>), ParseError>)
    ensures
        obj_step_of(input@, res) == spec_object(Kind::Long, input@),
        rest_ok(input@, res),
{
    let (rest, s) = parse_string32(input)?;
    Ok((rest, WeechatObjects::WLong(s)))
}

/// A buffer (`buf`), read as a string with a 4-byte length.
pub fn parse_buf<'a>(input: &'a [u8]) -> (res: Result<(&'a [u8], WeechatObjects<'a>), ParseError>)
    ensures
        obj_step_of(input@, res) == spec_object(Kind::Buf, input@),
        rest_ok(input@, res),
{
    let (rest, s) = parse_string32(input)?;
    Ok((rest, WeechatObjects::WBuffer(s)))
}

/// A pointer (`ptr`): a 1-byte length, then that many bytes.
pub fn parse_pointer<'a>(input: &'a [u8]) -> (res: Result<(&'a [u8], WeechatObjects<'a>), ParseError>)
    ensures
        obj_step_of(input@, res) == spec_object(Kind::Ptr, input@),
        rest_ok(input@, res),
{
    let (rest, s) = parse_string8(input)?;
    Ok((rest, WeechatObjects::WPointer(s)))
}

/// A time (`tim`): a 1-byte length, then that many bytes.
pub fn parse_time<'a>(input: &'a [u8]) -> (res: Result<(&'a [u8], WeechatObjects<'a>), ParseError>)
    ensures
        obj_step_of(input@, res) == spec_object(Kind::Tim, input@),
        rest_ok(input@, res),
{
    let (rest, s) = parse_string8(input)?;
    Ok((rest, WeechatObjects::WTime(s)))
}

/// The 3-letter type tag of an object, as a string object.
pub fn parse_type<'a>(input: &'a [u8]) -> (res: Result<(&'a [u8], WeechatObjects<'a>), ParseError>)
    ensures
        obj_step_of(input@, res) == spec_type(input@),
        rest_ok(input@, res),
{
    let (rest, s) = take_str(input, 3)?;
    Ok((rest, WeechatObjects::WString(s)))
}

/// An `info` object: a name and a value.
pub fn parse_info<'a>(input: &'a [u8]) -> (res: Result<(&'a [u8], WeechatObjects<'a>), ParseError>)
    ensures
        obj_step_of(input@, res) == spec_info(input@),
        rest_ok(input@, res),
{
    let (rest, name) = parse_string32(input)?;
    let (rest2, value) = parse_string32(rest)?;
    proof {
        lemma_rest_of_rest(rest2@, rest@, input@);
    }
    Ok((rest2, WeechatObjects::WInfo(name, value)))
}

/// Lifts the result of a parser that does not halt.
fn lift<'a>(res: Result<(&'a [u8], WeechatObjects<'a>), ParseError>) -> (r: Result<
    (&'a [u8], WeechatObjects<'a>),
    Halt,
>)
    ensures
        forall|input: Seq<u8>| halt_step_of(input, r) == obj_step_of(input, res),
        forall|input: Seq<u8>| rest_ok(input, r) == rest_ok(input, res),
{
    match res {
        Ok(x) => Ok(x),
        Err(e) => Err(Halt::Failed(e)),
    }
}

/// One object of element type `k`.
pub fn parse_object<'a>(k: Kind, input: &'a [u8]) -> (res: Result<(&'a [u8], WeechatObjects<'a>), Halt>)
    ensures
        halt_step_of(input@, res) == spec_object(k, input@),
        rest_ok(input@, res),
    decreases input@.len(), 2nat, 0nat,
{
    match k {
        Kind::Int => lift(parse_int(input)),
        Kind::Chr => lift(parse_chr(input)),
        Kind::Str => lift(parse_str(input)),
        Kind::Ptr => lift(parse_pointer(input)),
        Kind::Long => lift(parse_long(input)),
        Kind::Buf => lift(parse_buf(input)),
        Kind::Tim => lift(parse_time(input)),
        Kind::Arr => parse_array(input),
    }
}

/// An array, which may hold elements that the parser does not handle.
pub fn parse_array<'a>(input: &'a [u8]) -> (res: Result<(&'a [u8], WeechatObjects<'a>), Halt>)
    ensures
        halt_step_of(input@, res) == spec_array(input@),
        rest_ok(input@, res),
    decreases input@.len(), 1nat, 0nat,
{
    let (rest, t) = match take_str(input, 3) {
        Ok(x) => x,
        Err(e) => return Err(Halt::Failed(e)),
    };
    let (rest2, n) = match be_u32(rest) {
        Ok(x) => x,
        Err(e) => return Err(Halt::Failed(e)),
    };
    proof {
        lemma_rest_of_rest(rest2@, rest@, input@);
        assert(rest@ =~= input@.skip(3));
        assert(rest2@ =~= input@.skip(7));
    }
    if is_unsupported_array_tag(t) {
        return Err(Halt::Unsupported);
    }
    let k = array_kind_of(t);
    let (rest3, vs) = parse_elements(k, n, rest2)?;
    proof {
        lemma_rest_of_rest(rest3@, rest2@, input@);
    }
    let obj = WeechatObjects::WArray(t, n, vs);
    proof {
        lemma_array_model(obj);
    }
    Ok((rest3, obj))
}

/// `n` consecutive objects of element type `k`.
fn parse_elements<'a>(k: Kind, n: u32, input: &'a [u8]) -> (res: Result<
    (&'a [u8], Vec<WeechatObjects<'a>>),
    Halt,
>)
    ensures
        objects_step_of(input@, res) == spec_elements(k, n as nat, input@),
        rest_ok(input@, res),
    decreases input@.len(), 3nat, 0nat,
{
    let mut acc: Vec<WeechatObjects<'a>> = Vec::new();
    let mut rest = input;
    let mut i: u32 = 0;
    assert(rest@ =~= input@.skip(0));
    assert(models(acc@) =~= seq![]);
    while i < n
        invariant
            i <= n,
            is_rest_of(rest@, input@),
            spec_elements(k, i as nat, input@) == Step::Done(
                models(acc@),
                (input@.len() - rest@.len()) as nat,
            ),
        decreases n - i,
    {
        match parse_object(k, rest) {
            Ok((r2, v)) => {
                proof {
                    lemma_rest_of_rest(r2@, rest@, input@);
                    assert(models(acc@.push(v)) =~= models(acc@).push(v.model()));
                }
                acc.push(v);
                rest = r2;
                i = i + 1;
            },
            Err(h) => {
                proof {
                    lemma_elements_stop(k, (i + 1) as nat, n as nat, input@);
                }
                return Err(h);
            },
        }
    }
    Ok((rest, acc))
}

/// An array (`arr`): a 3-letter element type, a count, then the elements.
pub fn parse_arr<'a>(input: &'a [u8]) -> (res: Result<(&'a [u8], WeechatObjects<'a>), ParseError>)
    requires
        !(spec_array(input@) is Aborted),
    ensures
        obj_step_of(input@, res) == spec_array(input@),
        rest_ok(input@, res),
{
    match parse_array(input) {
        Ok(x) => Ok(x),
        Err(Halt::Failed(e)) => Err(e),
        Err(Halt::Unsupported) => {
            assert(false);
            Err(ParseError::Error(ErrorKind::Count))
        },
    }
}

/// The header included with every message.
#[derive(Debug, Clone, Copy, PartialEq, Eq, Structural)]
pub struct WeechatHeader {
    pub body_length: u32,
    pub compressed: bool,
}

/// The identifier of a message.
#[derive(Debug, PartialEq)]
pub enum WeechatId<'a> {
    ID(&'a str),
}

impl<'a> WeechatId<'a> {
    /// The identifier's UTF-8 bytes.
    pub open spec fn model(&self) -> Seq<u8> {
        match self {
            WeechatId::ID(s) => s.spec_bytes(),
        }
    }
}

/// Reads the header of a message: a 4-byte body length and a compression
/// flag byte, which means compressed when it is 1.
pub fn parse_header(input: &[u8]) -> (res: Result<(&[u8], WeechatHeader), ParseError>)
    ensures
        step_of(input@, res) == (match spec_header(input@) {
            Step::Done((len, compressed), c) => Step::Done(
                WeechatHeader { body_length: len, compressed },
                c,
            ),
            Step::Failed(e) => Step::Failed(e),
            Step::Aborted => Step::Aborted,
        }),
        rest_ok(input@, res),
{
    let (rest, body_length) = be_u32(input)?;
    let (rest2, flag) = be_u8(rest)?;
    proof {
        lemma_rest_of_rest(rest2@, rest@, input@);
        assert(rest@ =~= input@.skip(4));
    }
    Ok((rest2, WeechatHeader { body_length, compressed: flag == 1 }))
}

/// Reads the identifier of a message: a string with a 4-byte length.
pub fn parse_identifier<'a>(input: &'a [u8]) -> (res: Result<(&'a [u8], WeechatId<'a>), ParseError>)
    ensures
        (match res {
            Ok((rest, id)) => Step::Done(id.model(), (input@.len() - rest@.len()) as nat),
            Err(e) => Step::Failed(e),
        }) == spec_string32(input@),
        rest_ok(input@, res),
{
    let (rest, s) = parse_string32(input)?;
    Ok((rest, WeechatId::ID(s)))
}

/// Reads a string with a 4-byte length, as a string slice.
pub fn parse_bare_string<'a>(input: &'a [u8]) -> (res: Result<(&'a [u8], &'a str), ParseError>)
    ensures
        str_step_of(input@, res) == spec_string32(input@),
        rest_ok(input@, res),
{
    parse_string32(input)
}

impl<'a> HdataKeys<'a> {
    /// Splits the keys string of an hdata object (`name:type,name:type,...`)
    /// into its keys, and each key into its parts.
    pub fn from_raw_values(name_types: &str) -> (res: HdataKeys)
        ensures
            res.model() == spec_keys(name_types.spec_bytes()),
    {
        // Keys are separated by `,` (0x2c), the parts of a key by `:` (0x3a).
        let groups = split_str(name_types, 0x2c);
        let mut keys: Vec<Vec<&str>> = Vec::new();
        let mut g: usize = 0;
        while g < groups.len()
            invariant
                g <= groups@.len(),
                groups@.len() == spec_split(name_types.spec_bytes(), 0x2c).len(),
                forall|i: int|
                    0 <= i < groups@.len() ==> #[trigger] groups@[i].spec_bytes() == spec_split(
                        name_types.spec_bytes(),
                        0x2c,
                    )[i],
                keys@.len() == g,
                forall|i: int|
                    0 <= i < g ==> parts_model(#[trigger] keys@[i]) == spec_split(
                        groups@[i].spec_bytes(),
                        0x3a,
                    ),
            decreases groups@.len() - g,
        {
            let parts = split_str(groups[g], 0x3a);
            proof {
                assert(parts_model(parts) =~= spec_split(
                    groups@[g as int].spec_bytes(),
                    0x3a,
                ));
            }
            keys.push(parts);
            g = g + 1;
        }
        let res = HdataKeys { keys };
        proof {
            assert(res.model() =~= spec_keys(name_types.spec_bytes()));
        }
        res
    }
}

/// Reads the keys string of an hdata object and splits it into keys.
fn parse_hdata_keys<'a>(input: &'a [u8]) -> (res: Result<(&'a [u8], HdataKeys<'a>), ParseError>)
    ensures
        (match res {
            Ok((rest, keys)) => Step::Done(keys.model(), (input@.len() - rest@.len()) as nat),
            Err(e) => Step::Failed(e),
        }) == spec_hdata_keys(input@),
        rest_ok(input@, res),
{
    let (rest, name) = parse_string32(input)?;
    Ok((rest, HdataKeys::from_raw_values(name)))
}

/// The abstract values of the objects of an hdata: each object's path
/// pointers and its values.
pub open spec fn pairs_model(v: Seq<(Vec<WeechatObjects>, Vec<WeechatObjects>)>) -> Seq<
    (Seq<ObjectModel>, Seq<ObjectModel>),
> {
    v.map_values(|p: (Vec<WeechatObjects>, Vec<WeechatObjects>)| (models(p.0@), models(p.1@)))
}

/// The abstract value of an hdata holds the abstract values of its objects.
pub proof fn lemma_hdata_model(o: WeechatObjects)
    requires
        o is WHdata,
    ensures
        o.model() == (match o {
            WeechatObjects::WHdata(p, k, c, v) => ObjectModel::Hdata(
                p.spec_bytes(),
                k.model(),
                c,
                pairs_model(v@),
            ),
            _ => ObjectModel::HashTable,
        }),
{
    match o {
        WeechatObjects::WHdata(p, k, c, v) => {
            let m = o.model()->Hdata_3;
            assert forall|i: int| 0 <= i < v@.len() implies #[trigger] m[i] == pairs_model(v@)[i] by {
                assert(m[i].0 =~= models(v@[i].0@));
                assert(m[i].1 =~= models(v@[i].1@));
            }
            assert(m =~= pairs_model(v@));
        },
        _ => {},
    }
}

/// The element type named by the type part of an hdata key.
fn hdata_key_kind_of(t: &str) -> (r: Option<Kind>)
    ensures
        r == hdata_key_kind(t.spec_bytes()),
{
    if is_tag(t, 0x69, 0x6e, 0x74) /* int */ {
        Some(Kind::Int)
    } else if is_tag(t, 0x63, 0x68, 0x72) /* chr */ {
        Some(Kind::Chr)
    } else if is_tag(t, 0x73, 0x74, 0x72) /* str */ {
        Some(Kind::Str)
    } else if is_tag(t, 0x70, 0x74, 0x72) /* ptr */ {
        Some(Kind::Ptr)
    } else if is_tag(t, 0x6c, 0x6e, 0x67) /* lng */ {
        Some(Kind::Long)
    } else if is_tag(t, 0x6c, 0x6f, 0x6e) /* lon */ {
        Some(Kind::Long)
    } else if is_tag(t, 0x62, 0x75, 0x66) /* buf */ {
        Some(Kind::Buf)
    } else if is_tag(t, 0x61, 0x72, 0x72) /* arr */ {
        Some(Kind::Arr)
    } else if is_tag(t, 0x74, 0x69, 0x6d) /* tim */ {
        Some(Kind::Tim)
    } else {
        None
    }
}

/// The number of `/` (0x2f) in a path.
fn count_slashes(p: &str) -> (n: usize)
    ensures
        n == count_byte(p.spec_bytes(), 0x2f),
        n <= p.spec_bytes().len(),
{
    let bytes = p.as_bytes();
    let mut n: usize = 0;
    let mut i: usize = 0;
    assert(bytes@.take(0) =~= seq![]);
    while i < bytes.len()
        invariant
            i <= bytes@.len(),
            bytes@ == p.spec_bytes(),
            n <= i,
            n == count_byte(bytes@.take(i as int), 0x2f),
        decreases bytes@.len() - i,
    {
        assert(bytes@.take(i + 1).drop_last() =~= bytes@.take(i as int));
        if bytes[i] == 0x2f {
            n = n + 1;
        }
        i = i + 1;
    }
    assert(bytes@.take(i as int) =~= bytes@);
    n
}

/// `n` pointers of an hdata path.
fn parse_pointers<'a>(n: usize, input: &'a [u8]) -> (res: Result<
    (&'a [u8], Vec<WeechatObjects<'a>>),
    Halt,
>)
    ensures
        objects_step_of(input@, res) == spec_many(pointer_item(), n as nat, input@),
        rest_ok(input@, res),
{
    let mut acc: Vec<WeechatObjects<'a>> = Vec::new();
    let mut rest = input;
    let mut i: usize = 0;
    assert(rest@ =~= input@.skip(0));
    assert(models(acc@) =~= seq![]);
    while i < n
        invariant
            i <= n,
            is_rest_of(rest@, input@),
            spec_many(pointer_item(), i as nat, input@) == Step::Done(
                models(acc@),
                (input@.len() - rest@.len()) as nat,
            ),
        decreases n - i,
    {
        match parse_pointer(rest) {
            Ok((r2, v)) => {
                proof {
                    lemma_rest_of_rest(r2@, rest@, input@);
                    assert(models(acc@.push(v)) =~= models(acc@).push(v.model()));
                }
                acc.push(v);
                rest = r2;
                i = i + 1;
            },
            Err(e) => {
                let h = match e {
                    ParseError::Error(_) => Halt::Failed(ParseError::Error(ErrorKind::Count)),
                    ParseError::Incomplete(k) => Halt::Failed(ParseError::Incomplete(k)),
                };
                proof {
                    lemma_many_stop(pointer_item(), (i + 1) as nat, n as nat, input@);
                }
                return Err(h);
            },
        }
    }
    Ok((rest, acc))
}

/// The values of one hdata object, one per key in key order.  A key without
/// a known type, or a value that cannot be read, leaves the object
/// unhandled.
pub fn parse_hdata_values<'a>(input: &'a [u8], hdata_keys: &HdataKeys) -> (res: Result<
    (&'a [u8], Vec<WeechatObjects<'a>>),
    Halt,
>)
    ensures
        objects_step_of(input@, res) == spec_hdata_values(
            hdata_keys.model(),
            hdata_keys.model().len(),
            input@,
        ),
        rest_ok(input@, res),
{
    let ghost km = hdata_keys.model();
    let mut acc: Vec<WeechatObjects<'a>> = Vec::new();
    let mut rest = input;
    let mut m: usize = 0;
    assert(rest@ =~= input@.skip(0));
    assert(models(acc@) =~= seq![]);
    while m < hdata_keys.keys.len()
        invariant
            m <= hdata_keys.keys@.len(),
            km == hdata_keys.model(),
            is_rest_of(rest@, input@),
            spec_hdata_values(km, m as nat, input@) == Step::Done(
                models(acc@),
                (input@.len() - rest@.len()) as nat,
            ),
        decreases hdata_keys.keys@.len() - m,
    {
        let key = &hdata_keys.keys[m];
        proof {
            assert(km[m as int] == parts_model(*key));
        }
        if key.len() < 2 {
            proof {
                lemma_hdata_values_stop(km, (m + 1) as nat, km.len(), input@);
            }
            return Err(Halt::Unsupported);
        }
        let kind = match hdata_key_kind_of(key[1]) {
            Some(k) => k,
            None => {
                proof {
                    lemma_hdata_values_stop(km, (m + 1) as nat, km.len(), input@);
                }
                return Err(Halt::Unsupported);
            },
        };
        match parse_object(kind, rest) {
            Ok((r2, v)) => {
                proof {
                    lemma_rest_of_rest(r2@, rest@, input@);
                    assert(models(acc@.push(v)) =~= models(acc@).push(v.model()));
                }
                acc.push(v);
                rest = r2;
                m = m + 1;
            },
            Err(_) => {
                proof {
                    lemma_hdata_values_stop(km, (m + 1) as nat, km.len(), input@);
                }
                return Err(Halt::Unsupported);
            },
        }
    }
    Ok((rest, acc))
}

/// The values of one hdata object, one per key in key order, read from
/// `input`.  The path and the pointers of the object do not take part in
/// the reading.  Defined on the inputs where every key has a known type and
/// every value can be read.
pub fn parse_objects_fn<'a>(
    input: &'a [u8],
    hdata_keys: &HdataKeys,
    hpath: &str,
    pointers: &Vec<WeechatObjects>,
) -> (res: Result<(&'a [u8], Vec<WeechatObjects<'a>>), ParseError>)
    requires
        !(spec_hdata_values(hdata_keys.model(), hdata_keys.model().len(), input@) is Aborted),
    ensures
        (match res {
            Ok((rest, v)) => Step::Done(models(v@), (input@.len() - rest@.len()) as nat),
            Err(e) => Step::Failed(e),
        }) == spec_hdata_values(hdata_keys.model(), hdata_keys.model().len(), input@),
        rest_ok(input@, res),
        res is Ok,
{
    proof {
        lemma_hdata_values_never_fail(hdata_keys.model(), hdata_keys.model().len(), input@);
    }
    match parse_hdata_values(input, hdata_keys) {
        Ok(x) => Ok(x),
        Err(Halt::Failed(e)) => Err(e),
        Err(Halt::Unsupported) => {
            assert(false);
            Err(ParseError::Error(ErrorKind::Count))
        },
    }
}

/// One object of an hdata: its `np` path pointers, then its values.
fn parse_hdata_entry<'a>(np: usize, input: &'a [u8], hdata_keys: &HdataKeys) -> (res: Result<
    (&'a [u8], (Vec<WeechatObjects<'a>>, Vec<WeechatObjects<'a>>)),
    Halt,
>)
    ensures
        (match res {
            Ok((rest, p)) => Step::Done(
                (models(p.0@), models(p.1@)),
                (input@.len() - rest@.len()) as nat,
            ),
            Err(Halt::Failed(e)) => Step::Failed(e),
            Err(Halt::Unsupported) => Step::Aborted,
        }) == spec_hdata_entry(hdata_keys.model(), np as nat, input@),
        rest_ok(input@, res),
{
    let (rest, pointers) = parse_pointers(np, input)?;
    let (rest2, objects) = parse_hdata_values(rest, hdata_keys)?;
    proof {
        lemma_rest_of_rest(rest2@, rest@, input@);
    }
    Ok((rest2, (pointers, objects)))
}

/// `n` objects of an hdata.
fn parse_hdata_entries<'a>(np: usize, n: u32, input: &'a [u8], hdata_keys: &HdataKeys) -> (res:
    Result<(&'a [u8], Vec<(Vec<WeechatObjects<'a>>, Vec<WeechatObjects<'a>>)>), Halt>)
    ensures
        (match res {
            Ok((rest, v)) => Step::Done(pairs_model(v@), (input@.len() - rest@.len()) as nat),
            Err(Halt::Failed(e)) => Step::Failed(e),
            Err(Halt::Unsupported) => Step::Aborted,
        }) == spec_many(entry_item(hdata_keys.model(), np as nat), n as nat, input@),
        rest_ok(input@, res),
{
    let ghost item = entry_item(hdata_keys.model(), np as nat);
    let mut acc: Vec<(Vec<WeechatObjects<'a>>, Vec<WeechatObjects<'a>>)> = Vec::new();
    let mut rest = input;
    let mut i: u32 = 0;
    assert(rest@ =~= input@.skip(0));
    assert(pairs_model(acc@) =~= seq![]);
    while i < n
        invariant
            i <= n,
            item == entry_item(hdata_keys.model(), np as nat),
            is_rest_of(rest@, input@),
            spec_many(item, i as nat, input@) == Step::Done(
                pairs_model(acc@),
                (input@.len() - rest@.len()) as nat,
            ),
        decreases n - i,
    {
        match parse_hdata_entry(np, rest, hdata_keys) {
            Ok((r2, v)) => {
                proof {
                    lemma_rest_of_rest(r2@, rest@, input@);
                    assert(pairs_model(acc@.push(v)) =~= pairs_model(acc@).push(
                        (models(v.0@), models(v.1@)),
                    ));
                }
                acc.push(v);
                rest = r2;
                i = i + 1;
            },
            Err(h) => {
                let h2 = match h {
                    Halt::Failed(ParseError::Error(_)) => Halt::Failed(
                        ParseError::Error(ErrorKind::Count),
                    ),
                    _ => h,
                };
                proof {
                    lemma_many_stop(item, (i + 1) as nat, n as nat, input@);
                }
                return Err(h2);
            },
        }
    }
    Ok((rest, acc))
}

/// An hdata, which may hold objects that the parser does not handle.
#[verifier::rlimit(40)]
pub fn parse_hdata_halt<'a>(input: &'a [u8]) -> (res: Result<(&'a [u8], WeechatObjects<'a>), Halt>)
    ensures
        halt_step_of(input@, res) == spec_hdata(input@),
        rest_ok(input@, res),
{
    let (rest, h_path) = match parse_string32(input) {
        Ok(x) => x,
        Err(e) => return Err(Halt::Failed(e)),
    };
    let (rest2, keys) = match parse_hdata_keys(rest) {
        Ok(x) => x,
        Err(e) => return Err(Halt::Failed(e)),
    };
    let (rest3, count) = match be_u32(rest2) {
        Ok(x) => x,
        Err(e) => return Err(Halt::Failed(e)),
    };
    proof {
        lemma_rest_of_rest(rest2@, rest@, input@);
        lemma_rest_of_rest(rest3@, rest2@, input@);
        assert(h_path.spec_bytes().len() + 4 <= input@.len());
    }
    proof {
        assert(input@.len() == input.len());
    }
    let slashes = count_slashes(h_path);
    let (rest4, objects) = parse_hdata_entries(slashes + 1, count, rest3, &keys)?;
    proof {
        lemma_rest_of_rest(rest4@, rest3@, input@);
    }
    let obj = WeechatObjects::WHdata(h_path, keys, count, objects);
    proof {
        lemma_hdata_model(obj);
    }
    Ok((rest4, obj))
}

/// An hdata (`hda`): a path, the keys of its objects, a count, then the
/// objects, each with one pointer per element of the path and one value per
/// key.  Defined on the inputs whose objects all have keys with a known type
/// and values that can be read.
pub fn parse_hdata<'a>(input: &'a [u8]) -> (res: Result<(&'a [u8], WeechatObjects<'a>), ParseError>)
    requires
        !(spec_hdata(input@) is Aborted),
    ensures
        obj_step_of(input@, res) == spec_hdata(input@),
        rest_ok(input@, res),
{
    match parse_hdata_halt(input) {
        Ok(x) => Ok(x),
        Err(Halt::Failed(e)) => Err(e),
        Err(Halt::Unsupported) => {
            assert(false);
            Err(ParseError::Error(ErrorKind::Count))
        },
    }
}

/// The abstract values of the variables of an infolist item.
pub open spec fn vars_model(v: Seq<InfolistItem>) -> Seq<(Seq<u8>, ObjectModel)> {
    v.map_values(|x: InfolistItem| (x.name.spec_bytes(), x.value.model()))
}

/// The abstract values of the items of an infolist.
pub open spec fn items_model(v: Seq<InfolistItems>) -> Seq<(u32, Seq<(Seq<u8>, ObjectModel)>)> {
    v.map_values(|it: InfolistItems| (it.count, vars_model(it.objects@)))
}

/// The abstract value of an infolist holds the abstract values of its items.
pub proof fn lemma_infolist_model(o: WeechatObjects)
    requires
        o is WInfoList,
    ensures
        o.model() == (match o {
            WeechatObjects::WInfoList(n, c, v) => ObjectModel::InfoList(
                n.spec_bytes(),
                c,
                items_model(v@),
            ),
            _ => ObjectModel::HashTable,
        }),
{
    match o {
        WeechatObjects::WInfoList(n, c, v) => {
            let m = o.model()->InfoList_2;
            assert forall|i: int| 0 <= i < v@.len() implies #[trigger] m[i] == items_model(v@)[i] by {
                assert(m[i].1 =~= vars_model(v@[i].objects@));
            }
            assert(m =~= items_model(v@));
        },
        _ => {},
    }
}

/// The element type named by the type tag of an infolist variable.
fn infolist_kind_of(t: &str) -> (r: Option<Kind>)
    ensures
        r == infolist_kind(t.spec_bytes()),
{
    if is_tag(t, 0x74, 0x69, 0x6d) /* tim */ || is_tag(t, 0x6c, 0x6f, 0x6e) /* lon */ {
        None
    } else {
        hdata_key_kind_of(t)
    }
}

/// One variable of an infolist item: its name, a 3-letter type, its value.
fn parse_infolist_item<'a>(input: &'a [u8]) -> (res: Result<(&'a [u8], InfolistItem<'a>), Halt>)
    ensures
        (match res {
            Ok((rest, x)) => Step::Done(
                (x.name.spec_bytes(), x.value.model()),
                (input@.len() - rest@.len()) as nat,
            ),
            Err(Halt::Failed(e)) => Step::Failed(e),
            Err(Halt::Unsupported) => Step::Aborted,
        }) == spec_infolist_var(input@),
        rest_ok(input@, res),
{
    let (rest, name) = match parse_string32(input) {
        Ok(x) => x,
        Err(e) => return Err(Halt::Failed(e)),
    };
    let (rest2, t) = match take_str(rest, 3) {
        Ok(x) => x,
        Err(ParseError::Error(_)) => return Err(Halt::Failed(ParseError::Error(ErrorKind::Switch))),
        Err(e) => return Err(Halt::Failed(e)),
    };
    proof {
        lemma_rest_of_rest(rest2@, rest@, input@);
    }
    let kind = match infolist_kind_of(t) {
        Some(k) => k,
        None => return Err(Halt::Failed(ParseError::Error(ErrorKind::Switch))),
    };
    let (rest3, value) = match parse_object(kind, rest2) {
        Ok(x) => x,
        Err(Halt::Failed(ParseError::Error(_))) => return Err(
            Halt::Failed(ParseError::Error(ErrorKind::Switch)),
        ),
        Err(h) => return Err(h),
    };
    proof {
        lemma_rest_of_rest(rest3@, rest2@, input@);
    }
    Ok((rest3, InfolistItem { name, value }))
}

/// `n` variables of an infolist item.
fn parse_infolist_vars<'a>(n: u32, input: &'a [u8]) -> (res: Result<
    (&'a [u8], Vec<InfolistItem<'a>>),
    Halt,
>)
    ensures
        (match res {
            Ok((rest, v)) => Step::Done(vars_model(v@), (input@.len() - rest@.len()) as nat),
            Err(Halt::Failed(e)) => Step::Failed(e),
            Err(Halt::Unsupported) => Step::Aborted,
        }) == spec_many(var_item(), n as nat, input@),
        rest_ok(input@, res),
{
    let mut acc: Vec<InfolistItem<'a>> = Vec::new();
    let mut rest = input;
    let mut i: u32 = 0;
    assert(rest@ =~= input@.skip(0));
    assert(vars_model(acc@) =~= seq![]);
    while i < n
        invariant
            i <= n,
            is_rest_of(rest@, input@),
            spec_many(var_item(), i as nat, input@) == Step::Done(
                vars_model(acc@),
                (input@.len() - rest@.len()) as nat,
            ),
        decreases n - i,
    {
        match parse_infolist_item(rest) {
            Ok((r2, v)) => {
                proof {
                    lemma_rest_of_rest(r2@, rest@, input@);
                    assert(vars_model(acc@.push(v)) =~= vars_model(acc@).push(
                        (v.name.spec_bytes(), v.value.model()),
                    ));
                }
                acc.push(v);
                rest = r2;
                i = i + 1;
            },
            Err(h) => {
                let h2 = match h {
                    Halt::Failed(ParseError::Error(_)) => Halt::Failed(
                        ParseError::Error(ErrorKind::Count),
                    ),
                    _ => h,
                };
                proof {
                    lemma_many_stop(var_item(), (i + 1) as nat, n as nat, input@);
                }
                return Err(h2);
            },
        }
    }
    Ok((rest, acc))
}

/// One infolist item: a count, then that many variables.
fn parse_infolist_items<'a>(input: &'a [u8]) -> (res: Result<(&'a [u8], InfolistItems<'a>), Halt>)
    ensures
        (match res {
            Ok((rest, x)) => Step::Done(
                (x.count, vars_model(x.objects@)),
                (input@.len() - rest@.len()) as nat,
            ),
            Err(Halt::Failed(e)) => Step::Failed(e),
            Err(Halt::Unsupported) => Step::Aborted,
        }) == spec_infolist_item(input@),
        rest_ok(input@, res),
{
    let (start, count) = match be_u32(input) {
        Ok(x) => x,
        Err(e) => return Err(Halt::Failed(e)),
    };
    assert(start@ =~= input@.skip(4));
    let (rest, objects) = parse_infolist_vars(count, start)?;
    proof {
        lemma_rest_of_rest(rest@, start@, input@);
    }
    Ok((rest, InfolistItems { count, objects }))
}

/// `n` items of an infolist.
fn parse_infolist_item_list<'a>(n: u32, input: &'a [u8]) -> (res: Result<
    (&'a [u8], Vec<InfolistItems<'a>>),
    Halt,
>)
    ensures
        (match res {
            Ok((rest, v)) => Step::Done(items_model(v@), (input@.len() - rest@.len()) as nat),
            Err(Halt::Failed(e)) => Step::Failed(e),
            Err(Halt::Unsupported) => Step::Aborted,
        }) == spec_many(item_item(), n as nat, input@),
        rest_ok(input@, res),
{
    let mut acc: Vec<InfolistItems<'a>> = Vec::new();
    let mut rest = input;
    let mut i: u32 = 0;
    assert(rest@ =~= input@.skip(0));
    assert(items_model(acc@) =~= seq![]);
    while i < n
        invariant
            i <= n,
            is_rest_of(rest@, input@),
            spec_many(item_item(), i as nat, input@) == Step::Done(
                items_model(acc@),
                (input@.len() - rest@.len()) as nat,
            ),
        decreases n - i,
    {
        match parse_infolist_items(rest) {
            Ok((r2, v)) => {
                proof {
                    lemma_rest_of_rest(r2@, rest@, input@);
                    assert(items_model(acc@.push(v)) =~= items_model(acc@).push(
                        (v.count, vars_model(v.objects@)),
                    ));
                }
                acc.push(v);
                rest = r2;
                i = i + 1;
            },
            Err(h) => {
                let h2 = match h {
                    Halt::Failed(ParseError::Error(_)) => Halt::Failed(
                        ParseError::Error(ErrorKind::Count),
                    ),
                    _ => h,
                };
                proof {
                    lemma_many_stop(item_item(), (i + 1) as nat, n as nat, input@);
                }
                return Err(h2);
            },
        }
    }
    Ok((rest, acc))
}

/// An infolist, which may hold variables that the parser does not handle.
pub fn parse_infolist_halt<'a>(input: &'a [u8]) -> (res: Result<(&'a [u8], WeechatObjects<'a>), Halt>)
    ensures
        halt_step_of(input@, res) == spec_infolist(input@),
        rest_ok(input@, res),
{
    let (rest, name) = match parse_string32(input) {
        Ok(x) => x,
        Err(e) => return Err(Halt::Failed(e)),
    };
    let (start, count) = match be_u32(rest) {
        Ok(x) => x,
        Err(e) => return Err(Halt::Failed(e)),
    };
    proof {
        lemma_rest_of_rest(start@, rest@, input@);
        assert(rest@ =~= input@.skip(input@.len() - rest@.len()));
        assert(start@ =~= input@.skip(input@.len() - start@.len()));
    }
    let (cur, items) = parse_infolist_item_list(count, start)?;
    proof {
        lemma_rest_of_rest(cur@, start@, input@);
    }
    let obj = WeechatObjects::WInfoList(name, count, items);
    proof {
        lemma_infolist_model(obj);
    }
    Ok((cur, obj))
}

/// An infolist (`inl`): its name, a count, then that many items, each a
/// count and that many variables.  Defined on the inputs that hold no array
/// of a type the parser does not handle.
pub fn parse_infolist<'a>(input: &'a [u8]) -> (res: Result<(&'a [u8], WeechatObjects<'a>), ParseError>)
    requires
        !(spec_infolist(input@) is Aborted),
    ensures
        obj_step_of(input@, res) == spec_infolist(input@),
        rest_ok(input@, res),
{
    match parse_infolist_halt(input) {
        Ok(x) => Ok(x),
        Err(Halt::Failed(e)) => Err(e),
        Err(Halt::Unsupported) => {
            assert(false);
            Err(ParseError::Error(ErrorKind::Count))
        },
    }
}

} // verus!
