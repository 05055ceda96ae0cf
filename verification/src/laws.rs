//! Properties of the grammar that span several parsers or several inputs.

use vstd::prelude::*;
use crate::bytes::{Step, spec_split, spec_join, spec_take_str, spec_be_u32};
use vstd::utf8::valid_utf8;
use crate::grammar::{
    Kind, ObjectModel, spec_keys, spec_object, spec_array, spec_elements, spec_many, spec_string32,
    spec_string8, tag3, counted, pointer_item, spec_hdata_values, key_kind, entry_item, spec_hdata_entry,
    spec_hdata, spec_hdata_keys, count_byte, var_item, item_item, spec_infolist_var,
    spec_infolist_item, spec_infolist, infolist_kind, spec_header, spec_info, spec_type,
};

verus! {

/// Whether `b` occurs in `s`.
pub open spec fn has_byte(s: Seq<u8>, b: u8) -> bool {
    exists|i: int| 0 <= i < s.len() && s[i] == b
}

/// Splitting at a separator loses nothing: joining the pieces with the
/// separator gives back the string, and no piece holds the separator.
pub proof fn lemma_split_join(s: Seq<u8>, sep: u8)
    ensures
        spec_join(spec_split(s, sep), sep) == s,
        forall|i: int|
            0 <= i < spec_split(s, sep).len() ==> !has_byte(#[trigger] spec_split(s, sep)[i], sep),
    decreases s.len(),
{
    if s.len() > 0 {
        let p = spec_split(s.drop_last(), sep);
        lemma_split_join(s.drop_last(), sep);
        crate::bytes::lemma_split_nonempty(s.drop_last(), sep);
        if s.last() == sep {
            let q = p.push(seq![]);
            assert(q.drop_last() =~= p);
            assert(spec_join(q, sep) =~= s);
            assert forall|i: int| 0 <= i < q.len() implies !has_byte(#[trigger] q[i], sep) by {
                if i == q.len() - 1 {
                    assert(q[i] =~= seq![]);
                }
            }
        } else {
            let q = p.update(p.len() - 1, p.last().push(s.last()));
            assert(q.drop_last() =~= p.drop_last());
            lemma_join_last(p, sep);
            lemma_join_last(q, sep);
            assert(q.last() == p.last().push(s.last()));
            assert(s =~= s.drop_last().push(s.last()));
            if p.len() == 1 {
                assert(spec_join(q, sep) =~= s);
            } else {
                assert(spec_join(q, sep) =~= spec_join(p, sep).push(s.last()));
            }
            assert forall|i: int| 0 <= i < q.len() implies !has_byte(#[trigger] q[i], sep) by {
                if i == q.len() - 1 {
                    assert(!has_byte(p[i], sep));
                    assert forall|j: int| 0 <= j < q[i].len() implies q[i][j] != sep by {
                        if j < p[i].len() {
                            assert(q[i][j] == p[i][j]);
                        }
                    }
                }
            }
        }
    }
}

/// Joining splits off the last piece after the other pieces and a separator.
proof fn lemma_join_last(p: Seq<Seq<u8>>, sep: u8)
    requires
        p.len() >= 1,
    ensures
        p.len() == 1 ==> spec_join(p, sep) == p[0],
        p.len() > 1 ==> spec_join(p, sep) == spec_join(p.drop_last(), sep) + seq![sep] + p.last(),
{
}

/// Splitting is the only way to cut a string into separator-free pieces:
/// splitting what such pieces join to gives back the same pieces.
#[verifier::spinoff_prover]
#[verifier::rlimit(40)]
pub proof fn lemma_split_unique(pieces: Seq<Seq<u8>>, sep: u8)
    requires
        pieces.len() >= 1,
        forall|i: int| 0 <= i < pieces.len() ==> !has_byte(#[trigger] pieces[i], sep),
    ensures
        spec_split(spec_join(pieces, sep), sep) == pieces,
    decreases spec_join(pieces, sep).len() + pieces.len(),
{
    let s = spec_join(pieces, sep);
    lemma_join_last(pieces, sep);
    let last = pieces.last();
    if last.len() > 0 {
        let shorter = pieces.update(pieces.len() - 1, last.drop_last());
        assert forall|i: int| 0 <= i < shorter.len() implies !has_byte(#[trigger] shorter[i], sep) by {
            if i == shorter.len() - 1 {
                assert(!has_byte(pieces[i], sep));
                assert forall|j: int| 0 <= j < shorter[i].len() implies shorter[i][j] != sep by {
                    assert(shorter[i][j] == pieces[i][j]);
                }
            }
        }
        lemma_join_last(shorter, sep);
        assert(shorter.drop_last() =~= pieces.drop_last());
        assert(last.last() != sep) by {
            assert(!has_byte(pieces[pieces.len() - 1], sep));
            assert(last[last.len() - 1] == last.last());
        }
        if pieces.len() == 1 {
            assert(s.drop_last() =~= spec_join(shorter, sep));
        } else {
            assert(s.drop_last() =~= spec_join(shorter, sep));
        }
        assert(s.last() == last.last());
        lemma_split_unique(shorter, sep);
        assert(shorter.update(shorter.len() - 1, shorter.last().push(s.last())) =~= pieces) by {
            assert(last.drop_last().push(last.last()) =~= last);
        }
    } else if pieces.len() == 1 {
        assert(pieces =~= seq![seq![]]) by {
            assert(pieces[0] =~= seq![]);
        }
    } else {
        let init = pieces.drop_last();
        assert forall|i: int| 0 <= i < init.len() implies !has_byte(#[trigger] init[i], sep) by {
            assert(init[i] == pieces[i]);
        }
        assert(s =~= spec_join(init, sep).push(sep));
        assert(s.drop_last() =~= spec_join(init, sep));
        lemma_split_unique(init, sep);
        assert(init.push(seq![]) =~= pieces) by {
            assert(pieces[pieces.len() - 1] =~= seq![]);
        }
    }
}

/// The keys of an hdata object, joined back with `:` inside each key and
/// `,` between keys, give back the keys string.
pub proof fn lemma_keys_join(s: Seq<u8>)
    ensures
        spec_join(spec_keys(s).map_values(|k: Seq<Seq<u8>>| spec_join(k, 0x3a)), 0x2c) == s,
{
    let groups = spec_split(s, 0x2c);
    let joined = spec_keys(s).map_values(|k: Seq<Seq<u8>>| spec_join(k, 0x3a));
    assert forall|i: int| 0 <= i < groups.len() implies joined[i] == groups[i] by {
        lemma_split_join(groups[i], 0x3a);
    }
    assert(joined =~= groups);
    lemma_split_join(s, 0x2c);
}

/// A repetition that succeeds yields exactly as many elements as it was
/// asked for.
pub proof fn lemma_many_len<T>(item: spec_fn(Seq<u8>) -> Step<T>, n: nat, s: Seq<u8>)
    ensures
        spec_many(item, n, s) matches Step::Done(vs, _) ==> vs.len() == n,
    decreases n,
{
    if n > 0 {
        lemma_many_len(item, (n - 1) as nat, s);
    }
}

/// An array that is read holds as many elements as its count says.
pub proof fn lemma_array_count(s: Seq<u8>)
    ensures
        spec_array(s) matches Step::Done(ObjectModel::Array(_, n, vs), _) ==> vs.len() == n,
{
    if spec_take_str(s, 3) is Done && spec_be_u32(s.skip(3)) is Done {
        lemma_elements_len(spec_array_kind_of(s), spec_be_u32(s.skip(3))->Done_0 as nat, s.skip(7));
    }
}

/// The element type of the array at the start of `s`.
spec fn spec_array_kind_of(s: Seq<u8>) -> Kind {
    crate::grammar::array_kind(s.take(3))
}

/// A run of elements that is read has the requested length.
proof fn lemma_elements_len(k: Kind, n: nat, s: Seq<u8>)
    ensures
        spec_elements(k, n, s) matches Step::Done(vs, _) ==> vs.len() == n,
    decreases n,
{
    if n > 0 {
        lemma_elements_len(k, (n - 1) as nat, s);
    }
}

/// Whether a parser's successes do not depend on the bytes after what it
/// consumed.
pub open spec fn prefix_stable<T>(item: spec_fn(Seq<u8>) -> Step<T>) -> bool {
    forall|s: Seq<u8>, t: Seq<u8>| #[trigger] item(s) is Done ==> #[trigger] item(s + t) == item(s)
}

/// Skipping a consumed prefix commutes with appending.
proof fn lemma_skip_append(s: Seq<u8>, t: Seq<u8>, c: int)
    requires
        0 <= c <= s.len(),
    ensures
        (s + t).skip(c) == s.skip(c) + t,
{
    assert((s + t).skip(c) =~= s.skip(c) + t);
}

proof fn lemma_take_str_prefix(s: Seq<u8>, t: Seq<u8>, n: nat)
    requires
        spec_take_str(s, n) is Done,
    ensures
        spec_take_str(s + t, n) == spec_take_str(s, n),
{
    assert((s + t).take(n as int) =~= s.take(n as int));
}

proof fn lemma_be_u32_prefix(s: Seq<u8>, t: Seq<u8>)
    requires
        spec_be_u32(s) is Done,
    ensures
        spec_be_u32(s + t) == spec_be_u32(s),
{
    assert((s + t)[0] == s[0] && (s + t)[1] == s[1] && (s + t)[2] == s[2] && (s + t)[3] == s[3]);
}

/// A length-prefixed string (an identifier, or the name of an object) that is
/// read from the start of `s` is read the same way whatever bytes follow `s`.
pub proof fn lemma_string32_prefix(s: Seq<u8>, t: Seq<u8>)
    requires
        spec_string32(s) is Done,
    ensures
        spec_string32(s + t) == spec_string32(s),
{
    lemma_be_u32_prefix(s, t);
    lemma_skip_append(s, t, 4);
    lemma_take_str_prefix(s.skip(4), t, spec_be_u32(s)->Done_0 as nat);
}

proof fn lemma_string8_prefix(s: Seq<u8>, t: Seq<u8>)
    requires
        spec_string8(s) is Done,
    ensures
        spec_string8(s + t) == spec_string8(s),
{
    lemma_skip_append(s, t, 1);
    lemma_take_str_prefix(s.skip(1), t, s[0] as nat);
}

/// An object that is read from the start of `s` is read the same way, with
/// the same length, whatever bytes follow `s`.
pub proof fn lemma_object_prefix(k: Kind, s: Seq<u8>, t: Seq<u8>)
    requires
        spec_object(k, s) is Done,
    ensures
        spec_object(k, s + t) == spec_object(k, s),
    decreases s.len(), 2nat, 0nat,
{
    match k {
        Kind::Int => lemma_be_u32_prefix(s, t),
        Kind::Chr => {},
        Kind::Str | Kind::Long | Kind::Buf => lemma_string32_prefix(s, t),
        Kind::Ptr | Kind::Tim => lemma_string8_prefix(s, t),
        Kind::Arr => lemma_array_prefix(s, t),
    }
}

/// An array that is read from the start of `s` is read the same way
/// whatever bytes follow `s`.
pub proof fn lemma_array_prefix(s: Seq<u8>, t: Seq<u8>)
    requires
        spec_array(s) is Done,
    ensures
        spec_array(s + t) == spec_array(s),
    decreases s.len(), 1nat, 0nat,
{
    lemma_take_str_prefix(s, t, 3);
    lemma_skip_append(s, t, 3);
    lemma_be_u32_prefix(s.skip(3), t);
    lemma_skip_append(s, t, 7);
    let n = spec_be_u32(s.skip(3))->Done_0;
    lemma_elements_prefix(crate::grammar::array_kind(s.take(3)), n as nat, s.skip(7), t);
}

/// A run of elements that is read from the start of `s` is read the same way
/// whatever bytes follow `s`.
pub proof fn lemma_elements_prefix(k: Kind, n: nat, s: Seq<u8>, t: Seq<u8>)
    requires
        spec_elements(k, n, s) is Done,
    ensures
        spec_elements(k, n, s + t) == spec_elements(k, n, s),
    decreases s.len(), 3nat, n,
{
    if n > 0 {
        lemma_elements_prefix(k, (n - 1) as nat, s, t);
        let c = spec_elements(k, (n - 1) as nat, s)->Done_1;
        lemma_skip_append(s, t, c as int);
        lemma_object_prefix(k, s.skip(c as int), t);
    }
}

/// A repetition of a prefix-stable element is prefix-stable.
pub proof fn lemma_many_prefix<T>(item: spec_fn(Seq<u8>) -> Step<T>, n: nat, s: Seq<u8>, t: Seq<u8>)
    requires
        prefix_stable(item),
        spec_many(item, n, s) is Done,
    ensures
        spec_many(item, n, s + t) == spec_many(item, n, s),
    decreases n,
{
    if n > 0 {
        lemma_many_prefix(item, (n - 1) as nat, s, t);
        let c = spec_many(item, (n - 1) as nat, s)->Done_1;
        lemma_skip_append(s, t, c as int);
        assert(item(s.skip(c as int)) is Done);
        assert(item(s.skip(c as int) + t) == item(s.skip(c as int)));
    }
}

proof fn lemma_counted_done<T>(st: Step<T>)
    ensures
        counted(st) is Done <==> st is Done,
        st is Done ==> counted(st) == st,
{
}

proof fn lemma_pointer_item_stable()
    ensures
        prefix_stable(pointer_item()),
{
    assert forall|s: Seq<u8>, t: Seq<u8>| #[trigger] pointer_item()(s) is Done implies #[trigger] pointer_item()(s + t) == pointer_item()(s) by {
        lemma_counted_done(spec_object(Kind::Ptr, s));
        lemma_object_prefix(Kind::Ptr, s, t);
    }
}

/// The values of an hdata object that are read from the start of `s` are
/// read the same way whatever bytes follow `s`.
proof fn lemma_hdata_values_prefix(keys: Seq<Seq<Seq<u8>>>, m: nat, s: Seq<u8>, t: Seq<u8>)
    requires
        spec_hdata_values(keys, m, s) is Done,
    ensures
        spec_hdata_values(keys, m, s + t) == spec_hdata_values(keys, m, s),
    decreases m,
{
    if m > 0 {
        lemma_hdata_values_prefix(keys, (m - 1) as nat, s, t);
        let c = spec_hdata_values(keys, (m - 1) as nat, s)->Done_1;
        lemma_skip_append(s, t, c as int);
        let k = key_kind(keys[m - 1])->Some_0;
        lemma_object_prefix(k, s.skip(c as int), t);
    }
}

proof fn lemma_entry_item_stable(keys: Seq<Seq<Seq<u8>>>, np: nat)
    ensures
        prefix_stable(entry_item(keys, np)),
{
    assert forall|s: Seq<u8>, t: Seq<u8>| #[trigger] entry_item(keys, np)(s) is Done implies #[trigger] entry_item(keys, np)(s + t) == entry_item(keys, np)(s) by {
        lemma_counted_done(spec_hdata_entry(keys, np, s));
        lemma_pointer_item_stable();
        lemma_many_prefix(pointer_item(), np, s, t);
        let c = spec_many(pointer_item(), np, s)->Done_1;
        lemma_skip_append(s, t, c as int);
        lemma_hdata_values_prefix(keys, keys.len(), s.skip(c as int), t);
    }
}

/// An hdata that is read from the start of `s` is read the same way, with
/// the same length, whatever bytes follow `s`.
pub proof fn lemma_hdata_prefix(s: Seq<u8>, t: Seq<u8>)
    requires
        spec_hdata(s) is Done,
    ensures
        spec_hdata(s + t) == spec_hdata(s),
{
    lemma_string32_prefix(s, t);
    let c1 = spec_string32(s)->Done_1;
    let path = spec_string32(s)->Done_0;
    lemma_skip_append(s, t, c1 as int);
    lemma_string32_prefix(s.skip(c1 as int), t);
    let c2 = spec_hdata_keys(s.skip(c1 as int))->Done_1;
    let keys = spec_hdata_keys(s.skip(c1 as int))->Done_0;
    lemma_skip_append(s, t, (c1 + c2) as int);
    lemma_be_u32_prefix(s.skip((c1 + c2) as int), t);
    let n = spec_be_u32(s.skip((c1 + c2) as int))->Done_0;
    lemma_skip_append(s, t, (c1 + c2 + 4) as int);
    lemma_entry_item_stable(keys, count_byte(path, 0x2f) + 1);
    lemma_many_prefix(entry_item(keys, count_byte(path, 0x2f) + 1), n as nat, s.skip((c1 + c2 + 4) as int), t);
}

proof fn lemma_var_item_stable()
    ensures
        prefix_stable(var_item()),
{
    assert forall|s: Seq<u8>, t: Seq<u8>| #[trigger] var_item()(s) is Done implies #[trigger] var_item()(s + t) == var_item()(s) by {
        lemma_counted_done(spec_infolist_var(s));
        lemma_string32_prefix(s, t);
        let c1 = spec_string32(s)->Done_1;
        lemma_skip_append(s, t, c1 as int);
        lemma_take_str_prefix(s.skip(c1 as int), t, 3);
        lemma_skip_append(s, t, (c1 + 3) as int);
        let k = infolist_kind(spec_take_str(s.skip(c1 as int), 3)->Done_0)->Some_0;
        lemma_object_prefix(k, s.skip((c1 + 3) as int), t);
    }
}

proof fn lemma_item_item_stable()
    ensures
        prefix_stable(item_item()),
{
    assert forall|s: Seq<u8>, t: Seq<u8>| #[trigger] item_item()(s) is Done implies #[trigger] item_item()(s + t) == item_item()(s) by {
        lemma_counted_done(spec_infolist_item(s));
        lemma_be_u32_prefix(s, t);
        lemma_skip_append(s, t, 4);
        lemma_var_item_stable();
        lemma_many_prefix(var_item(), spec_be_u32(s)->Done_0 as nat, s.skip(4), t);
    }
}

/// An infolist that is read from the start of `s` is read the same way, with
/// the same length, whatever bytes follow `s`.
pub proof fn lemma_infolist_prefix(s: Seq<u8>, t: Seq<u8>)
    requires
        spec_infolist(s) is Done,
    ensures
        spec_infolist(s + t) == spec_infolist(s),
{
    lemma_string32_prefix(s, t);
    let c1 = spec_string32(s)->Done_1;
    lemma_skip_append(s, t, c1 as int);
    lemma_be_u32_prefix(s.skip(c1 as int), t);
    lemma_skip_append(s, t, (c1 + 4) as int);
    lemma_item_item_stable();
    lemma_many_prefix(item_item(), spec_be_u32(s.skip(c1 as int))->Done_0 as nat, s.skip((c1 + 4) as int), t);
}

/// Every value that `item` reads satisfies `p`.
pub open spec fn reads_only<T>(item: spec_fn(Seq<u8>) -> Step<T>, p: spec_fn(T) -> bool) -> bool {
    forall|s: Seq<u8>| #[trigger] item(s) is Done ==> p(item(s)->Done_0)
}

/// A repetition of an element whose values satisfy `p` yields only values
/// that satisfy `p`.
proof fn lemma_many_all<T>(item: spec_fn(Seq<u8>) -> Step<T>, p: spec_fn(T) -> bool, n: nat, s: Seq<u8>)
    requires
        reads_only(item, p),
    ensures
        spec_many(item, n, s) is Done ==> forall|i: int|
            0 <= i < spec_many(item, n, s)->Done_0.len() ==> p(
                #[trigger] spec_many(item, n, s)->Done_0[i],
            ),
    decreases n,
{
    if n > 0 {
        lemma_many_all(item, p, (n - 1) as nat, s);
        if spec_many(item, n, s) is Done {
            let c = spec_many(item, (n - 1) as nat, s)->Done_1;
            assert(item(s.skip(c as int)) is Done);
        }
    }
}

/// The values read for the first `m` keys of an hdata object are `m`.
proof fn lemma_hdata_values_len(keys: Seq<Seq<Seq<u8>>>, m: nat, s: Seq<u8>)
    ensures
        spec_hdata_values(keys, m, s) matches Step::Done(vs, _) ==> vs.len() == m,
    decreases m,
{
    if m > 0 {
        lemma_hdata_values_len(keys, (m - 1) as nat, s);
    }
}

/// An hdata that is read has the shape its header announces: as many
/// objects as its count, each with one pointer per element of its path
/// (the `/`-separated parts) and one value per key.
pub proof fn lemma_hdata_shape(s: Seq<u8>)
    ensures
        spec_hdata(s) matches Step::Done(ObjectModel::Hdata(path, keys, n, es), _) ==> {
            &&& es.len() == n
            &&& forall|i: int|
                0 <= i < es.len() ==> (#[trigger] es[i]).0.len() == count_byte(path, 0x2f) + 1
                    && es[i].1.len() == keys.len()
        },
{
    if spec_hdata(s) is Done {
        let c1 = spec_string32(s)->Done_1;
        let path = spec_string32(s)->Done_0;
        let c2 = spec_hdata_keys(s.skip(c1 as int))->Done_1;
        let keys = spec_hdata_keys(s.skip(c1 as int))->Done_0;
        let n = spec_be_u32(s.skip((c1 + c2) as int))->Done_0;
        let np = count_byte(path, 0x2f) + 1;
        let rest = s.skip((c1 + c2 + 4) as int);
        let p = |e: (Seq<ObjectModel>, Seq<ObjectModel>)| e.0.len() == np && e.1.len() == keys.len();
        assert forall|x: Seq<u8>| #[trigger] entry_item(keys, np)(x) is Done implies p(entry_item(keys, np)(x)->Done_0) by {
            lemma_counted_done(spec_hdata_entry(keys, np, x));
            lemma_many_len(pointer_item(), np, x);
            let c = spec_many(pointer_item(), np, x)->Done_1;
            lemma_hdata_values_len(keys, keys.len(), x.skip(c as int));
        }
        lemma_many_len(entry_item(keys, np), n as nat, rest);
        lemma_many_all(entry_item(keys, np), p, n as nat, rest);
    }
}

/// An infolist that is read has the shape its counts announce: as many
/// items as its count, and each item as many variables as the item's count.
pub proof fn lemma_infolist_shape(s: Seq<u8>)
    ensures
        spec_infolist(s) matches Step::Done(ObjectModel::InfoList(_, n, items), _) ==> {
            &&& items.len() == n
            &&& forall|i: int| 0 <= i < items.len() ==> (#[trigger] items[i]).1.len() == items[i].0
        },
{
    if spec_infolist(s) is Done {
        let c1 = spec_string32(s)->Done_1;
        let n = spec_be_u32(s.skip(c1 as int))->Done_0;
        let rest = s.skip((c1 + 4) as int);
        let p = |it: (u32, Seq<(Seq<u8>, ObjectModel)>)| it.1.len() == it.0;
        assert forall|x: Seq<u8>| #[trigger] item_item()(x) is Done implies p(item_item()(x)->Done_0) by {
            lemma_counted_done(spec_infolist_item(x));
            lemma_many_len(var_item(), spec_be_u32(x)->Done_0 as nat, x.skip(4));
        }
        lemma_many_len(item_item(), n as nat, rest);
        lemma_many_all(item_item(), p, n as nat, rest);
    }
}

/// A header that is read from the start of `s` is read the same way whatever
/// bytes follow `s`.
pub proof fn lemma_header_prefix(s: Seq<u8>, t: Seq<u8>)
    requires
        spec_header(s) is Done,
    ensures
        spec_header(s + t) == spec_header(s),
{
    lemma_be_u32_prefix(s, t);
    lemma_skip_append(s, t, 4);
}

/// An object never consumes more bytes than there are.
pub proof fn lemma_object_consumed(k: Kind, s: Seq<u8>)
    ensures
        spec_object(k, s) matches Step::Done(_, c) ==> c <= s.len(),
    decreases s.len(), 2nat, 0nat,
{
    if k == Kind::Arr {
        lemma_array_consumed(s);
    }
}

/// An array never consumes more bytes than there are.
pub proof fn lemma_array_consumed(s: Seq<u8>)
    ensures
        spec_array(s) matches Step::Done(_, c) ==> c <= s.len(),
    decreases s.len(), 1nat, 0nat,
{
    if spec_take_str(s, 3) is Done && spec_be_u32(s.skip(3)) is Done {
        let n = spec_be_u32(s.skip(3))->Done_0;
        lemma_elements_consumed(crate::grammar::array_kind(s.take(3)), n as nat, s.skip(7));
    }
}

/// A run of elements never consumes more bytes than there are.
pub proof fn lemma_elements_consumed(k: Kind, n: nat, s: Seq<u8>)
    ensures
        spec_elements(k, n, s) matches Step::Done(_, c) ==> c <= s.len(),
    decreases s.len(), 3nat, n,
{
    if n > 0 {
        lemma_elements_consumed(k, (n - 1) as nat, s);
        if spec_elements(k, (n - 1) as nat, s) is Done {
            let c = spec_elements(k, (n - 1) as nat, s)->Done_1;
            if c <= s.len() {
                lemma_object_consumed(k, s.skip(c as int));
            }
        }
    }
}

/// The values of an hdata object never consume more bytes than there are.
pub proof fn lemma_hdata_values_consumed(keys: Seq<Seq<Seq<u8>>>, m: nat, s: Seq<u8>)
    ensures
        spec_hdata_values(keys, m, s) matches Step::Done(_, c) ==> c <= s.len(),
    decreases m,
{
    if m > 0 {
        lemma_hdata_values_consumed(keys, (m - 1) as nat, s);
        if spec_hdata_values(keys, (m - 1) as nat, s) is Done {
            let c = spec_hdata_values(keys, (m - 1) as nat, s)->Done_1;
            if c <= s.len() && key_kind(keys[m - 1]) is Some {
                lemma_object_consumed(key_kind(keys[m - 1])->Some_0, s.skip(c as int));
            }
        }
    }
}

/// Reading the values of an hdata object never fails with an error: it
/// either reads every value or leaves the object unhandled.
pub proof fn lemma_hdata_values_never_fail(keys: Seq<Seq<Seq<u8>>>, m: nat, s: Seq<u8>)
    ensures
        !(spec_hdata_values(keys, m, s) is Failed),
    decreases m,
{
    if m > 0 {
        lemma_hdata_values_never_fail(keys, (m - 1) as nat, s);
    }
}

/// Only the type part of each key steers the reading of hdata values: two
/// key lists whose first `m` keys name the same types (the names, and any
/// parts after the type, may differ) read the same values.
pub proof fn lemma_hdata_values_by_type(k1: Seq<Seq<Seq<u8>>>, k2: Seq<Seq<Seq<u8>>>, m: nat, s: Seq<u8>)
    requires
        m <= k1.len(),
        m <= k2.len(),
        forall|i: int| 0 <= i < m ==> key_kind(#[trigger] k1[i]) == key_kind(k2[i]),
    ensures
        spec_hdata_values(k1, m, s) == spec_hdata_values(k2, m, s),
    decreases m,
{
    if m > 0 {
        lemma_hdata_values_by_type(k1, k2, (m - 1) as nat, s);
        assert(key_kind(k1[m - 1]) == key_kind(k2[m - 1]));
    }
}

/// Keys that agree on their type parts read the same hdata values, whatever
/// their names and any parts after the type.
pub proof fn lemma_hdata_values_type_part(k1: Seq<Seq<Seq<u8>>>, k2: Seq<Seq<Seq<u8>>>, s: Seq<u8>)
    requires
        k1.len() == k2.len(),
        forall|i: int|
            0 <= i < k1.len() ==> (#[trigger] k1[i]).len() >= 2 && k2[i].len() >= 2 && k2[i][1]
                == k1[i][1],
    ensures
        spec_hdata_values(k1, k1.len(), s) == spec_hdata_values(k2, k2.len(), s),
{
    lemma_hdata_values_by_type(k1, k2, k1.len(), s);
}

/// Reading the values for two key lists one after the other is reading the
/// values for the two lists joined: the second list's values are read from
/// where the first list's values end.
pub proof fn lemma_hdata_values_concat(k1: Seq<Seq<Seq<u8>>>, k2: Seq<Seq<Seq<u8>>>, s: Seq<u8>)
    requires
        spec_hdata_values(k1, k1.len(), s) is Done,
        spec_hdata_values(
            k2,
            k2.len(),
            s.skip(spec_hdata_values(k1, k1.len(), s)->Done_1 as int),
        ) is Done,
    ensures
        spec_hdata_values(k1 + k2, (k1 + k2).len(), s) == Step::Done(
            spec_hdata_values(k1, k1.len(), s)->Done_0 + spec_hdata_values(
                k2,
                k2.len(),
                s.skip(spec_hdata_values(k1, k1.len(), s)->Done_1 as int),
            )->Done_0,
            spec_hdata_values(k1, k1.len(), s)->Done_1 + spec_hdata_values(
                k2,
                k2.len(),
                s.skip(spec_hdata_values(k1, k1.len(), s)->Done_1 as int),
            )->Done_1,
        ),
{
    lemma_hdata_values_concat_upto(k1, k2, k2.len(), s);
}

#[verifier::rlimit(40)]
proof fn lemma_hdata_values_concat_upto(k1: Seq<Seq<Seq<u8>>>, k2: Seq<Seq<Seq<u8>>>, m: nat, s: Seq<u8>)
    requires
        m <= k2.len(),
        spec_hdata_values(k1, k1.len(), s) is Done,
        spec_hdata_values(
            k2,
            m,
            s.skip(spec_hdata_values(k1, k1.len(), s)->Done_1 as int),
        ) is Done,
    ensures
        spec_hdata_values(k1 + k2, k1.len() + m, s) == Step::Done(
            spec_hdata_values(k1, k1.len(), s)->Done_0 + spec_hdata_values(
                k2,
                m,
                s.skip(spec_hdata_values(k1, k1.len(), s)->Done_1 as int),
            )->Done_0,
            spec_hdata_values(k1, k1.len(), s)->Done_1 + spec_hdata_values(
                k2,
                m,
                s.skip(spec_hdata_values(k1, k1.len(), s)->Done_1 as int),
            )->Done_1,
        ),
    decreases m,
{
    let o1 = spec_hdata_values(k1, k1.len(), s)->Done_0;
    let c1 = spec_hdata_values(k1, k1.len(), s)->Done_1;
    let s2 = s.skip(c1 as int);
    if m == 0 {
        assert forall|i: int| 0 <= i < k1.len() implies key_kind(#[trigger] (k1 + k2)[i]) == key_kind(k1[i]) by {
            assert((k1 + k2)[i] == k1[i]);
        }
        lemma_hdata_values_by_type(k1 + k2, k1, k1.len(), s);
        assert(o1 + seq![] =~= o1);
    } else {
        let prev = spec_hdata_values(k2, (m - 1) as nat, s2);
        assert(prev is Done) by {
            if !(prev is Done) {
                crate::grammar::lemma_hdata_values_stop(k2, (m - 1) as nat, m, s2);
            }
        }
        lemma_hdata_values_concat_upto(k1, k2, (m - 1) as nat, s);
        let o2 = prev->Done_0;
        let c2 = prev->Done_1;
        assert((k1 + k2)[k1.len() + m - 1] == k2[m - 1]);
        lemma_hdata_values_consumed(k1, k1.len(), s);
        assert(s2.skip(c2 as int) =~= s.skip((c1 + c2) as int));
        let v = spec_hdata_values(k2, m, s2)->Done_0;
        assert(o1 + o2.push(v[m - 1]) =~= (o1 + o2).push(v[m - 1]));
    }
}

/// The big-endian bytes of `n`.
pub open spec fn be_u32_bytes(n: u32) -> Seq<u8> {
    seq![
        (n / 0x1000000) as u8,
        (n / 0x10000 % 0x100) as u8,
        (n / 0x100 % 0x100) as u8,
        (n % 0x100) as u8,
    ]
}

/// The type tag that names element type `k` in an array (a long is `lon`).
pub open spec fn array_tag(k: Kind) -> Seq<u8> {
    match k {
        Kind::Int => seq![0x69, 0x6e, 0x74] /* int */,
        Kind::Chr => seq![0x63, 0x68, 0x72] /* chr */,
        Kind::Str => seq![0x73, 0x74, 0x72] /* str */,
        Kind::Ptr => seq![0x70, 0x74, 0x72] /* ptr */,
        Kind::Long => seq![0x6c, 0x6f, 0x6e] /* lon */,
        Kind::Buf => seq![0x62, 0x75, 0x66] /* buf */,
        Kind::Arr => seq![0x61, 0x72, 0x72] /* arr */,
        Kind::Tim => seq![0x74, 0x69, 0x6d] /* tim */,
    }
}

/// The type part that names element type `k` in an hdata key or before an
/// infolist variable (a long is `lng`).
pub open spec fn key_tag(k: Kind) -> Seq<u8> {
    match k {
        Kind::Long => seq![0x6c, 0x6e, 0x67] /* lng */,
        _ => array_tag(k),
    }
}

/// Whether `v` is a value of the scalar element type `k` that has an
/// encoding: a character below 256, strings of valid UTF-8 whose length fits
/// their length prefix.
pub open spec fn scalar_encodable(k: Kind, v: ObjectModel) -> bool {
    match v {
        ObjectModel::Int(_) => k == Kind::Int,
        ObjectModel::Chr(c) => k == Kind::Chr && (c as u32) < 0x100,
        ObjectModel::Str(b) => k == Kind::Str && b.len() <= u32::MAX && valid_utf8(b),
        ObjectModel::Long(b) => k == Kind::Long && b.len() <= u32::MAX && valid_utf8(b),
        ObjectModel::Buffer(b) => k == Kind::Buf && b.len() <= u32::MAX && valid_utf8(b),
        ObjectModel::Pointer(b) => k == Kind::Ptr && b.len() < 0x100 && valid_utf8(b),
        ObjectModel::Time(b) => k == Kind::Tim && b.len() < 0x100 && valid_utf8(b),
        _ => false,
    }
}

/// Whether `v` is a value of element type `k` that has an encoding: an
/// encodable scalar, or an array whose tag names a scalar element type,
/// whose count is its length, and whose elements are encodable of that type.
pub open spec fn value_encodable(k: Kind, v: ObjectModel) -> bool {
    match v {
        ObjectModel::Array(t, n, vs) => k == Kind::Arr && n == vs.len() && exists|ke: Kind|
            ke != Kind::Arr && t == array_tag(ke) && forall|i: int|
                0 <= i < vs.len() ==> scalar_encodable(ke, #[trigger] vs[i]),
        _ => scalar_encodable(k, v),
    }
}

/// The bytes of a scalar value on the wire: an integer as 4 big-endian
/// bytes, a character as one byte, strings after a 4-byte (`str`, `lon`,
/// `buf`) or 1-byte (`ptr`, `tim`) length.
pub open spec fn encode_scalar(v: ObjectModel) -> Seq<u8> {
    match v {
        ObjectModel::Int(i) => be_u32_bytes(i as u32),
        ObjectModel::Chr(c) => seq![c as u8],
        ObjectModel::Str(b) => be_u32_bytes(b.len() as u32) + b,
        ObjectModel::Long(b) => be_u32_bytes(b.len() as u32) + b,
        ObjectModel::Buffer(b) => be_u32_bytes(b.len() as u32) + b,
        ObjectModel::Pointer(b) => seq![b.len() as u8] + b,
        ObjectModel::Time(b) => seq![b.len() as u8] + b,
        _ => seq![],
    }
}

/// The encodings of the first `m` scalar values, one after another.
pub open spec fn encode_scalars(vs: Seq<ObjectModel>, m: nat) -> Seq<u8>
    decreases m,
{
    if m == 0 {
        seq![]
    } else {
        encode_scalars(vs, (m - 1) as nat) + encode_scalar(vs[m - 1])
    }
}

/// The bytes of a value on the wire: a scalar as above, an array as its
/// 3-letter tag, its count as 4 big-endian bytes, then its elements.
pub open spec fn encode_value(v: ObjectModel) -> Seq<u8> {
    match v {
        ObjectModel::Array(t, n, vs) => t + be_u32_bytes(n) + encode_scalars(vs, vs.len()),
        _ => encode_scalar(v),
    }
}

proof fn lemma_be_u32_bytes(n: u32, rest: Seq<u8>)
    ensures
        spec_be_u32(be_u32_bytes(n) + rest) == Step::Done(n, 4),
{
    let e = be_u32_bytes(n) + rest;
    assert(e[0] == (n / 0x1000000) as u8 && e[1] == (n / 0x10000 % 0x100) as u8 && e[2] == (n
        / 0x100 % 0x100) as u8 && e[3] == (n % 0x100) as u8);
    assert((n / 0x1000000) as int * 0x1000000 + (n / 0x10000 % 0x100) as int * 0x10000 + (n / 0x100
        % 0x100) as int * 0x100 + (n % 0x100) as int == n) by (nonlinear_arith);
}

/// A length-prefixed string is read back from its encoding.
pub proof fn lemma_string32_encode(b: Seq<u8>, rest: Seq<u8>)
    requires
        b.len() <= u32::MAX,
        valid_utf8(b),
    ensures
        spec_string32(encode_scalar(ObjectModel::Str(b)) + rest) == Step::Done(b, 4 + b.len()),
        encode_scalar(ObjectModel::Str(b)).len() == 4 + b.len(),
        (encode_scalar(ObjectModel::Str(b)) + rest).skip(4 + b.len() as int) == rest,
{
    let e = encode_scalar(ObjectModel::Str(b)) + rest;
    assert(e.skip(4 + b.len() as int) =~= rest);
    lemma_be_u32_bytes(b.len() as u32, b + rest);
    assert(e =~= be_u32_bytes(b.len() as u32) + (b + rest));
    assert(e.skip(4) =~= b + rest);
    assert((b + rest).take(b.len() as int) =~= b);
}

/// A scalar value of element type `k` is read back from its encoding,
/// whatever bytes follow it.
pub proof fn lemma_scalar_encode(k: Kind, v: ObjectModel, rest: Seq<u8>)
    requires
        scalar_encodable(k, v),
    ensures
        spec_object(k, encode_scalar(v) + rest) == Step::Done(v, encode_scalar(v).len()),
{
    let e = encode_scalar(v) + rest;
    match v {
        ObjectModel::Int(i) => {
            lemma_be_u32_bytes(i as u32, rest);
            assert((i as u32) as i32 == i) by (bit_vector);
        },
        ObjectModel::Chr(c) => {
            assert(e[0] == c as u8);
            assert((c as u8) as char == c);
        },
        ObjectModel::Str(b) | ObjectModel::Long(b) | ObjectModel::Buffer(b) => {
            lemma_be_u32_bytes(b.len() as u32, b + rest);
            assert(e =~= be_u32_bytes(b.len() as u32) + (b + rest));
            assert(e.skip(4) =~= b + rest);
            assert((b + rest).take(b.len() as int) =~= b);
        },
        ObjectModel::Pointer(b) | ObjectModel::Time(b) => {
            assert(e[0] == b.len() as u8);
            assert(e.skip(1) =~= b + rest);
            assert((b + rest).take(b.len() as int) =~= b);
        },
        _ => {},
    }
}

/// Scalar elements of type `k` are read back, one after another, from their
/// encodings.
pub proof fn lemma_elements_encode(k: Kind, vs: Seq<ObjectModel>, m: nat, rest: Seq<u8>)
    requires
        m <= vs.len(),
        forall|i: int| 0 <= i < m ==> scalar_encodable(k, #[trigger] vs[i]),
    ensures
        spec_elements(k, m, encode_scalars(vs, m) + rest) == Step::Done(
            vs.take(m as int),
            encode_scalars(vs, m).len(),
        ),
    decreases m,
{
    if m == 0 {
        assert(vs.take(0) =~= seq![]);
    } else {
        let prev = encode_scalars(vs, (m - 1) as nat);
        let ev = encode_scalar(vs[m - 1]);
        assert(scalar_encodable(k, vs[m - 1]));
        assert(encode_scalars(vs, m) + rest =~= prev + (ev + rest));
        lemma_elements_encode(k, vs, (m - 1) as nat, ev + rest);
        assert((prev + (ev + rest)).skip(prev.len() as int) =~= ev + rest);
        lemma_scalar_encode(k, vs[m - 1], rest);
        assert(vs.take(m - 1).push(vs[m - 1]) =~= vs.take(m as int));
    }
}

/// A three-letter ASCII tag is valid UTF-8.
proof fn lemma_tag_utf8(t: Seq<u8>)
    requires
        t.len() == 3,
        t[0] < 0x80 && t[1] < 0x80 && t[2] < 0x80,
    ensures
        valid_utf8(t),
{
    let t1 = t.subrange(1, 3);
    let t2 = t1.subrange(1, 2);
    let t3 = t2.subrange(1, 1);
    assert(t3 =~= seq![]);
    assert(valid_utf8(t3));
    assert(t2.subrange(1, t2.len() as int) =~= t3);
    assert(valid_utf8(t2));
    assert(t1.subrange(1, t1.len() as int) =~= t2);
    assert(valid_utf8(t1));
    assert(t.subrange(1, t.len() as int) =~= t1);
}

/// The array tag of every element type is read as that element type, and
/// only the unhandled tags are unhandled.
proof fn lemma_array_tag(k: Kind)
    ensures
        crate::grammar::array_kind(array_tag(k)) == k,
        !crate::grammar::unsupported_array_tag(array_tag(k)),
        valid_utf8(array_tag(k)),
        array_tag(k).len() == 3,
{
    let t = array_tag(k);
    lemma_tag_utf8(t);
    assert(t.len() == 3);
    assert(t[0] != 0x68);
    assert(!crate::grammar::unsupported_array_tag(t)) by {
        assert(t[0] != 0x68 && (t[0] != 0x69 || t[1] != 0x6e || t[2] == 0x74));
        if t == tag3(0x69, 0x6e, 0x66) || t == tag3(0x69, 0x6e, 0x6c) {
            assert(t[2] != 0x74);
        }
    }
    match k {
        Kind::Int => assert(t =~= tag3(0x69, 0x6e, 0x74)),
        Kind::Chr => {
            assert(t =~= tag3(0x63, 0x68, 0x72));
            assert(t != tag3(0x69, 0x6e, 0x74) && t != tag3(0x6c, 0x6f, 0x6e));
        },
        Kind::Str => {
            assert(t[0] == 0x73);
        },
        Kind::Ptr => {
            assert(t =~= tag3(0x70, 0x74, 0x72));
        },
        Kind::Long => assert(t =~= tag3(0x6c, 0x6f, 0x6e)),
        Kind::Buf => assert(t =~= tag3(0x62, 0x75, 0x66)),
        Kind::Arr => assert(t =~= tag3(0x61, 0x72, 0x72)),
        Kind::Tim => assert(t =~= tag3(0x74, 0x69, 0x6d)),
    }
}

/// An array of scalars is read back from its encoding, whatever bytes
/// follow: its tag names the element type, its count is its length, and
/// each element is read by the type the tag names.
pub proof fn lemma_array_encode(k: Kind, vs: Seq<ObjectModel>, rest: Seq<u8>)
    requires
        k != Kind::Arr,
        vs.len() <= u32::MAX,
        forall|i: int| 0 <= i < vs.len() ==> scalar_encodable(k, #[trigger] vs[i]),
    ensures
        spec_array(array_tag(k) + be_u32_bytes(vs.len() as u32) + encode_scalars(vs, vs.len()) + rest)
            == Step::Done(
            ObjectModel::Array(array_tag(k), vs.len() as u32, vs),
            7 + encode_scalars(vs, vs.len()).len(),
        ),
{
    let t = array_tag(k);
    let enc = encode_scalars(vs, vs.len());
    let e = t + be_u32_bytes(vs.len() as u32) + enc + rest;
    lemma_array_tag(k);
    assert(e.take(3) =~= t);
    assert(e.skip(3) =~= be_u32_bytes(vs.len() as u32) + (enc + rest));
    lemma_be_u32_bytes(vs.len() as u32, enc + rest);
    assert(e.skip(7) =~= enc + rest);
    lemma_elements_encode(k, vs, vs.len(), rest);
    assert(vs.take(vs.len() as int) =~= vs);
}

/// A value of element type `k` is read back from its encoding, whatever
/// bytes follow it.
pub proof fn lemma_object_encode(k: Kind, v: ObjectModel, rest: Seq<u8>)
    requires
        value_encodable(k, v),
    ensures
        spec_object(k, encode_value(v) + rest) == Step::Done(v, encode_value(v).len()),
{
    match v {
        ObjectModel::Array(t, n, vs) => {
            let ke = choose|ke: Kind|
                ke != Kind::Arr && t == array_tag(ke) && forall|i: int|
                    0 <= i < vs.len() ==> scalar_encodable(ke, #[trigger] vs[i]);
            lemma_array_encode(ke, vs, rest);
        },
        _ => lemma_scalar_encode(k, v, rest),
    }
}

/// The encodings of the first `m` values, one after another.
pub open spec fn encode_values(vs: Seq<ObjectModel>, m: nat) -> Seq<u8>
    decreases m,
{
    if m == 0 {
        seq![]
    } else {
        encode_values(vs, (m - 1) as nat) + encode_value(vs[m - 1])
    }
}

/// The values of an hdata object are read back from their encodings, one
/// after another in key order, whatever bytes follow: each value is read by
/// the type its key names.
pub proof fn lemma_hdata_values_encode(
    keys: Seq<Seq<Seq<u8>>>,
    vs: Seq<ObjectModel>,
    m: nat,
    rest: Seq<u8>,
)
    requires
        m <= keys.len(),
        m <= vs.len(),
        forall|i: int|
            0 <= i < m ==> key_kind(#[trigger] keys[i]) is Some && value_encodable(
                key_kind(keys[i])->Some_0,
                vs[i],
            ),
    ensures
        spec_hdata_values(keys, m, encode_values(vs, m) + rest) == Step::Done(
            vs.take(m as int),
            encode_values(vs, m).len(),
        ),
    decreases m,
{
    if m == 0 {
        assert(vs.take(0) =~= seq![]);
    } else {
        let prev = encode_values(vs, (m - 1) as nat);
        let ev = encode_value(vs[m - 1]);
        assert(key_kind(keys[m - 1]) is Some);
        assert(encode_values(vs, m) + rest =~= prev + (ev + rest));
        lemma_hdata_values_encode(keys, vs, (m - 1) as nat, ev + rest);
        assert((prev + (ev + rest)).skip(prev.len() as int) =~= ev + rest);
        lemma_object_encode(key_kind(keys[m - 1])->Some_0, vs[m - 1], rest);
        assert(vs.take(m - 1).push(vs[m - 1]) =~= vs.take(m as int));
    }
}

/// A key whose type part is the key tag of `k` names `k`.
proof fn lemma_key_tag(key: Seq<Seq<u8>>, k: Kind)
    requires
        key.len() >= 2,
        key[1] == key_tag(k),
    ensures
        key_kind(key) == Some(k),
        k != Kind::Tim ==> crate::grammar::infolist_kind(key_tag(k)) == Some(k),
{
    let t = key_tag(k);
    match k {
        Kind::Int => assert(t =~= tag3(0x69, 0x6e, 0x74)),
        Kind::Chr => assert(t =~= tag3(0x63, 0x68, 0x72)),
        Kind::Str => assert(t =~= tag3(0x73, 0x74, 0x72)),
        Kind::Ptr => assert(t =~= tag3(0x70, 0x74, 0x72)),
        Kind::Long => assert(t =~= tag3(0x6c, 0x6e, 0x67)),
        Kind::Buf => assert(t =~= tag3(0x62, 0x75, 0x66)),
        Kind::Arr => assert(t =~= tag3(0x61, 0x72, 0x72)),
        Kind::Tim => assert(t =~= tag3(0x74, 0x69, 0x6d)),
    }
    assert(t[0] != 0x74 || k == Kind::Tim);
    assert(t != tag3(0x6c, 0x6f, 0x6e)) by {
        assert(t[1] != 0x6f);
    }
}

/// The values of an hdata object are read back from their encodings, in key
/// order, whatever bytes follow, when each key's type part is the key tag of
/// the value's type (`int`, `chr`, `str`, `ptr`, `lng`, `buf`, `arr`,
/// `tim`), arrays included.
pub proof fn lemma_hdata_values_tagged(
    keys: Seq<Seq<Seq<u8>>>,
    ks: Seq<Kind>,
    vs: Seq<ObjectModel>,
    rest: Seq<u8>,
)
    requires
        keys.len() == ks.len(),
        keys.len() == vs.len(),
        forall|i: int|
            0 <= i < keys.len() ==> (#[trigger] keys[i]).len() >= 2 && keys[i][1] == key_tag(ks[i])
                && value_encodable(ks[i], vs[i]),
    ensures
        spec_hdata_values(keys, keys.len(), encode_values(vs, vs.len()) + rest) == Step::Done(
            vs,
            encode_values(vs, vs.len()).len(),
        ),
{
    assert forall|i: int| 0 <= i < keys.len() implies key_kind(#[trigger] keys[i]) is Some
        && value_encodable(key_kind(keys[i])->Some_0, vs[i]) by {
        lemma_key_tag(keys[i], ks[i]);
    }
    lemma_hdata_values_encode(keys, vs, keys.len(), rest);
    assert(vs.take(vs.len() as int) =~= vs);
}

/// An infolist variable is read back from its encoding, whatever bytes
/// follow: its name, the key tag of its type (any type but `tim`), and its
/// value.
#[verifier::spinoff_prover]
#[verifier::rlimit(80)]
pub proof fn lemma_infolist_var_encode(name: Seq<u8>, k: Kind, v: ObjectModel, rest: Seq<u8>)
    requires
        k != Kind::Tim,
        name.len() <= u32::MAX,
        valid_utf8(name),
        value_encodable(k, v),
    ensures
        spec_infolist_var(
            encode_scalar(ObjectModel::Str(name)) + key_tag(k) + encode_value(v) + rest,
        ) == Step::Done((name, v), 4 + name.len() + 3 + encode_value(v).len()),
{
    let en = encode_scalar(ObjectModel::Str(name));
    let t = key_tag(k);
    let ev = encode_value(v);
    let e = en + t + ev + rest;
    assert(e =~= en + (t + ev + rest));
    lemma_string32_encode(name, t + ev + rest);
    assert(en.len() == 4 + name.len());
    assert(e.skip(en.len() as int) =~= t + (ev + rest));
    lemma_key_tag(seq![name, t], k);
    assert(t.len() == 3);
    lemma_tag_utf8(t);
    assert((t + (ev + rest)).take(3) =~= t);
    assert(e.skip((en.len() + 3) as int) =~= ev + rest);
    lemma_object_encode(k, v, rest);
}

/// An info object is read back from the encodings of its name and its
/// value, whatever bytes follow.
#[verifier::spinoff_prover]
#[verifier::rlimit(80)]
pub proof fn lemma_info_encode(name: Seq<u8>, value: Seq<u8>, rest: Seq<u8>)
    requires
        name.len() <= u32::MAX,
        value.len() <= u32::MAX,
        valid_utf8(name),
        valid_utf8(value),
    ensures
        spec_info(encode_scalar(ObjectModel::Str(name)) + encode_scalar(ObjectModel::Str(value)) + rest)
            == Step::Done(ObjectModel::Info(name, value), 8 + name.len() + value.len()),
{
    let en = encode_scalar(ObjectModel::Str(name));
    let ev = encode_scalar(ObjectModel::Str(value));
    let tail = ev + rest;
    lemma_string32_encode(name, tail);
    lemma_string32_encode(value, rest);
    let e = en + tail;
    assert(en + ev + rest =~= e);
    assert(spec_string32(e) == Step::Done(name, 4 + name.len()));
    assert(e.skip(4 + name.len() as int) == tail);
    assert(spec_string32(tail) == Step::Done(value, 4 + value.len()));
}

/// The number of occurrences of a byte is one less than the number of pieces
/// that splitting at it gives.
pub proof fn lemma_count_byte_split(s: Seq<u8>, b: u8)
    ensures
        count_byte(s, b) + 1 == spec_split(s, b).len(),
    decreases s.len(),
{
    if s.len() > 0 {
        lemma_count_byte_split(s.drop_last(), b);
        crate::bytes::lemma_split_nonempty(s.drop_last(), b);
    }
}

/// Every object of an hdata that is read has one pointer per element of
/// its `/`-separated path.
pub proof fn lemma_hdata_pointers(s: Seq<u8>)
    ensures
        spec_hdata(s) matches Step::Done(ObjectModel::Hdata(path, _, _, es), _) ==> forall|i: int|
            0 <= i < es.len() ==> (#[trigger] es[i]).0.len() == spec_split(path, 0x2f).len(),
{
    lemma_hdata_shape(s);
    if spec_hdata(s) is Done {
        let path = spec_string32(s)->Done_0;
        lemma_count_byte_split(path, 0x2f);
    }
}

/// A header is read back from its encoding, the body length as 4
/// big-endian bytes and the flag byte: the body is compressed exactly when
/// the flag is 1.
pub proof fn lemma_header_encode(len: u32, flag: u8, rest: Seq<u8>)
    ensures
        spec_header(be_u32_bytes(len) + seq![flag] + rest) == Step::Done((len, flag == 1), 5),
{
    let e = be_u32_bytes(len) + seq![flag] + rest;
    assert(e =~= be_u32_bytes(len) + (seq![flag] + rest));
    lemma_be_u32_bytes(len, seq![flag] + rest);
    assert(e.skip(4)[0] == flag);
}

/// The type of an object is its first three bytes, when they are valid
/// UTF-8.
pub proof fn lemma_type_encode(t: Seq<u8>, rest: Seq<u8>)
    requires
        t.len() == 3,
        valid_utf8(t),
    ensures
        spec_type(t + rest) == Step::Done(ObjectModel::Str(t), 3),
{
    assert((t + rest).take(3) =~= t);
}

/// An hdata key whose type part is `lon` names a long, as `lng` does.
pub proof fn lemma_key_lon(key: Seq<Seq<u8>>)
    requires
        key.len() >= 2,
        key[1] == seq![0x6c as u8, 0x6f, 0x6e] /* lon */,
    ensures
        key_kind(key) == Some(Kind::Long),
{
    assert(key[1] =~= tag3(0x6c, 0x6f, 0x6e));
    assert(key[1] != tag3(0x6c, 0x6e, 0x67)) by {
        assert(key[1][1] == 0x6f);
    }
}

/// An infolist variable tagged `tim` or `lon` is not read: the variable
/// fails as an unmatched alternative.
pub proof fn lemma_infolist_var_rejects(name: Seq<u8>, t: Seq<u8>, rest: Seq<u8>)
    requires
        name.len() <= u32::MAX,
        valid_utf8(name),
        t == seq![0x74 as u8, 0x69, 0x6d] /* tim */ || t == seq![0x6c as u8, 0x6f, 0x6e] /* lon */,
    ensures
        spec_infolist_var(encode_scalar(ObjectModel::Str(name)) + t + rest) == Step::Failed::<
            (Seq<u8>, ObjectModel),
        >(crate::bytes::ParseError::Error(crate::bytes::ErrorKind::Switch)),
{
    let en = encode_scalar(ObjectModel::Str(name));
    let tail = t + rest;
    lemma_string32_encode(name, tail);
    assert(en + t + rest =~= en + tail);
    lemma_tag_utf8(t);
    assert(tail.take(3) =~= t);
    assert(t =~= tag3(0x74, 0x69, 0x6d) || t =~= tag3(0x6c, 0x6f, 0x6e));
}

/// An array whose tag is `htb`, `hda`, `inf` or `inl` is not handled,
/// whatever its count and elements.
pub proof fn lemma_array_unsupported(t: Seq<u8>, n: u32, rest: Seq<u8>)
    requires
        t == seq![0x68 as u8, 0x74, 0x62] /* htb */ || t == seq![0x68 as u8, 0x64, 0x61] /* hda */
            || t == seq![0x69 as u8, 0x6e, 0x66] /* inf */ || t == seq![0x69 as u8, 0x6e, 0x6c] /* inl */,
    ensures
        spec_array(t + be_u32_bytes(n) + rest) is Aborted,
{
    let e = t + be_u32_bytes(n) + rest;
    lemma_tag_utf8(t);
    assert(e.take(3) =~= t);
    assert(e.skip(3) =~= be_u32_bytes(n) + rest);
    lemma_be_u32_bytes(n, rest);
    assert(crate::grammar::unsupported_array_tag(t)) by {
        assert(t =~= tag3(0x68, 0x74, 0x62) || t =~= tag3(0x68, 0x64, 0x61) || t =~= tag3(0x69, 0x6e, 0x66)
            || t =~= tag3(0x69, 0x6e, 0x6c));
    }
}

/// An array whose tag names no element type reads its elements as strings.
pub proof fn lemma_array_unknown_tag(t: Seq<u8>, vs: Seq<ObjectModel>, rest: Seq<u8>)
    requires
        t.len() == 3,
        valid_utf8(t),
        forall|k: Kind| t != #[trigger] array_tag(k),
        !crate::grammar::unsupported_array_tag(t),
        vs.len() <= u32::MAX,
        forall|i: int| 0 <= i < vs.len() ==> scalar_encodable(Kind::Str, #[trigger] vs[i]),
    ensures
        spec_array(t + be_u32_bytes(vs.len() as u32) + encode_scalars(vs, vs.len()) + rest)
            == Step::Done(
            ObjectModel::Array(t, vs.len() as u32, vs),
            7 + encode_scalars(vs, vs.len()).len(),
        ),
{
    let enc = encode_scalars(vs, vs.len());
    let e = t + be_u32_bytes(vs.len() as u32) + enc + rest;
    assert(e.take(3) =~= t);
    assert(e.skip(3) =~= be_u32_bytes(vs.len() as u32) + (enc + rest));
    lemma_be_u32_bytes(vs.len() as u32, enc + rest);
    assert(e.skip(7) =~= enc + rest);
    assert(crate::grammar::array_kind(t) == Kind::Str) by {
        assert(t != array_tag(Kind::Int) && t != array_tag(Kind::Long) && t != array_tag(Kind::Chr)
            && t != array_tag(Kind::Ptr) && t != array_tag(Kind::Buf) && t != array_tag(Kind::Arr)
            && t != array_tag(Kind::Tim));
        assert(array_tag(Kind::Int) =~= tag3(0x69, 0x6e, 0x74));
        assert(array_tag(Kind::Long) =~= tag3(0x6c, 0x6f, 0x6e));
        assert(array_tag(Kind::Chr) =~= tag3(0x63, 0x68, 0x72));
        assert(array_tag(Kind::Ptr) =~= tag3(0x70, 0x74, 0x72));
        assert(array_tag(Kind::Buf) =~= tag3(0x62, 0x75, 0x66));
        assert(array_tag(Kind::Arr) =~= tag3(0x61, 0x72, 0x72));
        assert(array_tag(Kind::Tim) =~= tag3(0x74, 0x69, 0x6d));
    }
    lemma_elements_encode(Kind::Str, vs, vs.len(), rest);
    assert(vs.take(vs.len() as int) =~= vs);
}

/// The first `m` byte strings, one after another.
pub open spec fn concat_all(encs: Seq<Seq<u8>>, m: nat) -> Seq<u8>
    decreases m,
{
    if m == 0 {
        seq![]
    } else {
        concat_all(encs, (m - 1) as nat) + encs[m - 1]
    }
}

/// A repetition reads back values one after another from their encodings,
/// when its element reads each value back from its own encoding whatever
/// follows.
pub proof fn lemma_many_encode<T>(
    item: spec_fn(Seq<u8>) -> Step<T>,
    encs: Seq<Seq<u8>>,
    vs: Seq<T>,
    m: nat,
    rest: Seq<u8>,
)
    requires
        m <= encs.len(),
        m <= vs.len(),
        forall|j: int, r: Seq<u8>|
            0 <= j < m ==> #[trigger] item(encs[j] + r) == Step::Done(vs[j], encs[j].len()),
    ensures
        spec_many(item, m, concat_all(encs, m) + rest) == Step::Done(
            vs.take(m as int),
            concat_all(encs, m).len(),
        ),
    decreases m,
{
    if m == 0 {
        assert(vs.take(0) =~= seq![]);
    } else {
        let prev = concat_all(encs, (m - 1) as nat);
        let last = encs[m - 1];
        assert(concat_all(encs, m) + rest =~= prev + (last + rest));
        lemma_many_encode(item, encs, vs, (m - 1) as nat, last + rest);
        assert((prev + (last + rest)).skip(prev.len() as int) =~= last + rest);
        assert(item(encs[m - 1] + rest) == Step::Done(vs[m - 1], encs[m - 1].len()));
        assert(vs.take(m - 1).push(vs[m - 1]) =~= vs.take(m as int));
    }
}

/// The encodings of scalars, one after another, are their encodings
/// concatenated.
proof fn lemma_encode_scalars_concat(vs: Seq<ObjectModel>, m: nat)
    requires
        m <= vs.len(),
    ensures
        encode_scalars(vs, m) == concat_all(vs.map_values(|v: ObjectModel| encode_scalar(v)), m),
    decreases m,
{
    if m > 0 {
        lemma_encode_scalars_concat(vs, (m - 1) as nat);
    }
}

/// The bytes of one hdata object: its pointers, then its values.
pub open spec fn encode_entry(e: (Seq<ObjectModel>, Seq<ObjectModel>)) -> Seq<u8> {
    encode_scalars(e.0, e.0.len()) + encode_values(e.1, e.1.len())
}

/// An hdata is read back from its encoding, whatever bytes follow: its path,
/// its keys string, its count, then each object's pointers (one per element
/// of the `/`-separated path) and its values (one per key, read by the type
/// the key names).
#[verifier::spinoff_prover]
#[verifier::rlimit(80)]
pub proof fn lemma_hdata_encode(
    path: Seq<u8>,
    keys: Seq<u8>,
    ks: Seq<Kind>,
    es: Seq<(Seq<ObjectModel>, Seq<ObjectModel>)>,
    rest: Seq<u8>,
)
    requires
        path.len() <= u32::MAX,
        keys.len() <= u32::MAX,
        es.len() <= u32::MAX,
        valid_utf8(path),
        valid_utf8(keys),
        spec_keys(keys).len() == ks.len(),
        forall|i: int|
            0 <= i < ks.len() ==> (#[trigger] spec_keys(keys)[i]).len() >= 2 && spec_keys(keys)[i][1]
                == key_tag(ks[i]),
        forall|j: int|
            0 <= j < es.len() ==> {
                &&& (#[trigger] es[j]).0.len() == spec_split(path, 0x2f).len()
                &&& forall|p: int| 0 <= p < es[j].0.len() ==> scalar_encodable(Kind::Ptr, #[trigger] es[j].0[p])
                &&& es[j].1.len() == ks.len()
                &&& forall|i: int| 0 <= i < ks.len() ==> value_encodable(ks[i], #[trigger] es[j].1[i])
            },
    ensures
        spec_hdata(
            encode_scalar(ObjectModel::Str(path)) + encode_scalar(ObjectModel::Str(keys))
                + be_u32_bytes(es.len() as u32) + concat_all(es.map_values(|e| encode_entry(e)), es.len())
                + rest,
        ) == Step::Done(
            ObjectModel::Hdata(path, spec_keys(keys), es.len() as u32, es),
            4 + path.len() + 4 + keys.len() + 4 + concat_all(
                es.map_values(|e| encode_entry(e)),
                es.len(),
            ).len(),
        ),
{
    let km = spec_keys(keys);
    let np = count_byte(path, 0x2f) + 1;
    lemma_count_byte_split(path, 0x2f);
    let encs = es.map_values(|e| encode_entry(e));
    let body = concat_all(encs, es.len());
    let ep = encode_scalar(ObjectModel::Str(path));
    let ek = encode_scalar(ObjectModel::Str(keys));
    let en = be_u32_bytes(es.len() as u32);
    let t3 = body + rest;
    let t2 = en + t3;
    let t1 = ek + t2;
    let e = ep + t1;
    assert(ep + ek + en + body + rest =~= e);
    lemma_string32_encode(path, t1);
    lemma_string32_encode(keys, t2);
    lemma_be_u32_bytes(es.len() as u32, t3);
    assert(t2.skip(4) =~= t3);
    assert(e.skip((4 + path.len() + 4 + keys.len()) as int) =~= t2) by {
        assert(e.skip(4 + path.len() as int) == t1);
        assert(t1.skip(4 + keys.len() as int) == t2);
    }
    assert(e.skip((4 + path.len() + 4 + keys.len() + 4) as int) =~= t3);
    // Each object is read back from its encoding.
    assert forall|j: int, r: Seq<u8>| 0 <= j < es.len() implies #[trigger] entry_item(km, np)(encs[j] + r)
        == Step::Done(es[j], encs[j].len()) by {
        let ptrs = es[j].0;
        let vals = es[j].1;
        let pe = encode_scalars(ptrs, ptrs.len());
        let ve = encode_values(vals, vals.len());
        assert(encs[j] + r =~= pe + (ve + r));
        lemma_encode_scalars_concat(ptrs, ptrs.len());
        let pencs = ptrs.map_values(|v: ObjectModel| encode_scalar(v));
        assert forall|p: int, r2: Seq<u8>| 0 <= p < ptrs.len() implies #[trigger] pointer_item()(pencs[p] + r2)
            == Step::Done(ptrs[p], pencs[p].len()) by {
            lemma_scalar_encode(Kind::Ptr, ptrs[p], r2);
        }
        lemma_many_encode(pointer_item(), pencs, ptrs, ptrs.len(), ve + r);
        assert(ptrs.take(ptrs.len() as int) =~= ptrs);
        assert((pe + (ve + r)).skip(pe.len() as int) =~= ve + r);
        lemma_hdata_values_tagged(km, ks, vals, r);
    }
    lemma_many_encode(entry_item(km, np), encs, es, es.len(), rest);
    assert(es.take(es.len() as int) =~= es);
}

/// The bytes of one infolist variable: its name, the key tag of its type,
/// then its value.
pub open spec fn encode_var(name: Seq<u8>, k: Kind, v: ObjectModel) -> Seq<u8> {
    encode_scalar(ObjectModel::Str(name)) + key_tag(k) + encode_value(v)
}

/// The bytes of one infolist item: its count, then its variables, each
/// written with the type of the same index in `ks`.
pub open spec fn encode_item(item: (u32, Seq<(Seq<u8>, ObjectModel)>), ks: Seq<Kind>) -> Seq<u8> {
    be_u32_bytes(item.0) + concat_all(
        Seq::new(item.1.len(), |i: int| encode_var(item.1[i].0, ks[i], item.1[i].1)),
        item.1.len(),
    )
}

/// Whether an infolist item can be written with types `ks`: its count is its
/// number of variables, and each variable has a valid name and a value
/// encodable of its type, which is not `tim`.
pub open spec fn item_encodable(item: (u32, Seq<(Seq<u8>, ObjectModel)>), ks: Seq<Kind>) -> bool {
    &&& item.0 == item.1.len()
    &&& ks.len() == item.1.len()
    &&& forall|i: int|
        0 <= i < ks.len() ==> {
            &&& (#[trigger] ks[i]) != Kind::Tim
            &&& item.1[i].0.len() <= u32::MAX
            &&& valid_utf8(item.1[i].0)
            &&& value_encodable(ks[i], item.1[i].1)
        }
}

/// One infolist variable, as an element of a repetition, is read back from
/// its encoding.
#[verifier::spinoff_prover]
proof fn lemma_var_item_encode(name: Seq<u8>, k: Kind, v: ObjectModel, r: Seq<u8>)
    requires
        k != Kind::Tim,
        name.len() <= u32::MAX,
        valid_utf8(name),
        value_encodable(k, v),
    ensures
        var_item()(encode_var(name, k, v) + r) == Step::Done((name, v), encode_var(name, k, v).len()),
{
    let x = encode_var(name, k, v) + r;
    lemma_infolist_var_encode(name, k, v, r);
    let st = spec_infolist_var(x);
    assert(st == Step::Done((name, v), 4 + name.len() + 3 + encode_value(v).len()));
    assert(encode_scalar(ObjectModel::Str(name)).len() == 4 + name.len()) by {
        lemma_string32_encode(name, r);
    }
    assert(key_tag(k).len() == 3);
    lemma_counted_done(st);
    assert(var_item()(x) == counted(st));
}

/// An infolist item is read back from its encoding, whatever bytes follow.
#[verifier::spinoff_prover]
#[verifier::rlimit(80)]
proof fn lemma_infolist_item_encode(item: (u32, Seq<(Seq<u8>, ObjectModel)>), ks: Seq<Kind>, rest: Seq<u8>)
    requires
        item_encodable(item, ks),
    ensures
        item_item()(encode_item(item, ks) + rest) == Step::Done(item, encode_item(item, ks).len()),
{
    let vars = item.1;
    let encs = Seq::new(vars.len(), |i: int| encode_var(vars[i].0, ks[i], vars[i].1));
    let body = concat_all(encs, vars.len());
    let e = encode_item(item, ks) + rest;
    assert(e =~= be_u32_bytes(item.0) + (body + rest));
    lemma_be_u32_bytes(item.0, body + rest);
    assert(e.skip(4) =~= body + rest);
    assert forall|j: int, r: Seq<u8>| 0 <= j < vars.len() implies #[trigger] var_item()(encs[j] + r)
        == Step::Done(vars[j], encs[j].len()) by {
        assert(ks[j] != Kind::Tim);
        lemma_var_item_encode(vars[j].0, ks[j], vars[j].1, r);
    }
    lemma_many_encode(var_item(), encs, vars, vars.len(), rest);
    assert(vars.take(vars.len() as int) =~= vars);
}

/// An infolist is read back from its encoding, whatever bytes follow: its
/// name, its count, then each item's count and variables, each variable's
/// value read by the type its tag names.
#[verifier::spinoff_prover]
#[verifier::rlimit(80)]
pub proof fn lemma_infolist_encode(
    name: Seq<u8>,
    items: Seq<(u32, Seq<(Seq<u8>, ObjectModel)>)>,
    ks: Seq<Seq<Kind>>,
    rest: Seq<u8>,
)
    requires
        name.len() <= u32::MAX,
        valid_utf8(name),
        items.len() <= u32::MAX,
        ks.len() == items.len(),
        forall|j: int| 0 <= j < items.len() ==> item_encodable(#[trigger] items[j], ks[j]),
    ensures
        spec_infolist(
            encode_scalar(ObjectModel::Str(name)) + be_u32_bytes(items.len() as u32) + concat_all(
                Seq::new(items.len(), |j: int| encode_item(items[j], ks[j])),
                items.len(),
            ) + rest,
        ) == Step::Done(
            ObjectModel::InfoList(name, items.len() as u32, items),
            4 + name.len() + 4 + concat_all(
                Seq::new(items.len(), |j: int| encode_item(items[j], ks[j])),
                items.len(),
            ).len(),
        ),
{
    let encs = Seq::new(items.len(), |j: int| encode_item(items[j], ks[j]));
    let body = concat_all(encs, items.len());
    let en = encode_scalar(ObjectModel::Str(name));
    let t2 = be_u32_bytes(items.len() as u32) + (body + rest);
    let e = en + t2;
    assert(en + be_u32_bytes(items.len() as u32) + body + rest =~= e);
    lemma_string32_encode(name, t2);
    lemma_be_u32_bytes(items.len() as u32, body + rest);
    assert(e.skip((4 + name.len() + 4) as int) =~= body + rest) by {
        assert(e.skip(4 + name.len() as int) == t2);
    }
    assert forall|j: int, r: Seq<u8>| 0 <= j < items.len() implies #[trigger] item_item()(encs[j] + r)
        == Step::Done(items[j], encs[j].len()) by {
        lemma_infolist_item_encode(items[j], ks[j], r);
    }
    lemma_many_encode(item_item(), encs, items, items.len(), rest);
    assert(items.take(items.len() as int) =~= items);
}

} // verus!
