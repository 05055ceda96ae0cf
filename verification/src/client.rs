//! What a relay client computes from each message it receives.

use vstd::prelude::*;
use crate::bytes::{ParseError, Step};
use crate::grammar::{ObjectModel, spec_header, spec_string32, spec_type, spec_hdata};
use crate::parser::{
    Halt, WeechatHeader, WeechatId, WeechatObjects, parse_header, parse_identifier, parse_type,
    parse_hdata_halt,
};

verus! {

/// The part of a message that could not be read, with the parts before it.
#[derive(Debug, PartialEq)]
pub enum FrameError<'a> {
    Header(ParseError),
    Identifier(WeechatHeader, ParseError),
    Type(WeechatHeader, WeechatId<'a>, ParseError),
}

/// A message read as a header, an identifier, an object type, and the hdata
/// body that follows them (or why the body could not be read).
#[derive(Debug, PartialEq)]
pub struct Frame<'a> {
    pub header: WeechatHeader,
    pub id: WeechatId<'a>,
    pub object_type: WeechatObjects<'a>,
    pub hdata: Result<WeechatObjects<'a>, Halt>,
}

/// The step of an hdata body by its abstract value.
pub open spec fn hdata_outcome(r: Result<WeechatObjects, Halt>) -> Option<Step<ObjectModel>> {
    match r {
        Ok(o) => Some(Step::Done(o.model(), 0)),
        Err(Halt::Failed(e)) => Some(Step::Failed(e)),
        Err(Halt::Unsupported) => Some(Step::Aborted),
    }
}

/// The step of an hdata body without the number of bytes it consumed.
pub open spec fn forget_len(st: Step<ObjectModel>) -> Step<ObjectModel> {
    match st {
        Step::Done(v, _) => Step::Done(v, 0),
        _ => st,
    }
}

/// Reads a message as the relay client does: the header, then the
/// identifier, then the object type, then an hdata body.  The first three
/// must be read; the body's outcome is handed back either way.
pub fn parse_frame<'a>(data: &'a [u8]) -> (res: Result<Frame<'a>, FrameError<'a>>)
    ensures
        match spec_header(data@) {
            Step::Failed(e) => res matches Err(FrameError::Header(e2)) && e2 == e,
            Step::Aborted => false,
            Step::Done((len, compressed), c1) => match spec_string32(data@.skip(c1 as int)) {
                Step::Failed(e) => res matches Err(FrameError::Identifier(h, e2)) && e2 == e
                    && h == (WeechatHeader { body_length: len, compressed }),
                Step::Aborted => false,
                Step::Done(id, c2) => match spec_type(data@.skip((c1 + c2) as int)) {
                    Step::Failed(e) => res matches Err(FrameError::Type(h, i, e2)) && e2 == e
                        && h == (WeechatHeader { body_length: len, compressed }) && i.model() == id,
                    Step::Aborted => false,
                    Step::Done(t, c3) => res matches Ok(f) && f.header == (WeechatHeader {
                        body_length: len,
                        compressed,
                    }) && f.id.model() == id && f.object_type.model() == t && hdata_outcome(
                        f.hdata,
                    ) == Some(forget_len(spec_hdata(data@.skip((c1 + c2 + c3) as int)))),
                },
            },
        },
{
    let (rest, header) = match parse_header(data) {
        Ok(x) => x,
        Err(e) => return Err(FrameError::Header(e)),
    };
    assert(rest@ =~= data@.skip(data@.len() - rest@.len()));
    let (rest2, id) = match parse_identifier(rest) {
        Ok(x) => x,
        Err(e) => return Err(FrameError::Identifier(header, e)),
    };
    assert(rest2@ =~= data@.skip(data@.len() - rest2@.len()));
    let (rest3, object_type) = match parse_type(rest2) {
        Ok(x) => x,
        Err(e) => return Err(FrameError::Type(header, id, e)),
    };
    assert(rest3@ =~= data@.skip(data@.len() - rest3@.len()));
    let hdata = match parse_hdata_halt(rest3) {
        Ok((_, obj)) => Ok(obj),
        Err(h) => Err(h),
    };
    Ok(Frame { header, id, object_type, hdata })
}

} // verus!
