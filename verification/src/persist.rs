//! The persistence layer: the append-only operation log, its record
//! format, and replay of a log text into a store.
//!
//! A SET record is `'$' <key_len> CRLF <key> <value_len> CRLF <value>`,
//! a DEL record is `'#' <key_len> CRLF <key>`, where both lengths are
//! plain decimal and the value is one codec record. Lengths count
//! characters of the log text.

use vstd::prelude::*;
use vstd::string::*;
use crate::data::{
    Data,
    DataView,
    all_digits,
    crlf,
    dec_nat,
    dec_digits_val,
    decode_data,
    encode_data,
    is_digit,
    data_wf,
    lemma_dec_nat_val,
    lemma_dec_val_nonneg,
    lemma_codec_round_trip,
};
use crate::error::{Error, ErrorKind};
use crate::store::{Pairs, StoreMap, pairs_insert, pairs_remove};

verus! {

/// When committed effects are made durable: never, or before every
/// successful commit returns.
#[derive(Debug, PartialEq, Eq, Structural, Clone, Copy)]
pub enum SyncPolicy {
    Never,
    Always,
}

/// Where the store persists its data: nowhere, or in a log file at a path.
#[derive(Debug, Clone, PartialEq)]
pub enum PersistType {
    Memory,
    File(String),
}

/// The ephemeral backend: every operation is accepted and forgotten,
/// and loading yields an empty store.
#[derive(Debug)]
pub struct MemoryStore {}

impl Default for MemoryStore {
    /// The one ephemeral backend value.
    fn default() -> (r: Self)
        ensures
            r == (MemoryStore {  }),
    {
        MemoryStore {  }
    }
}

impl MemoryStore {
    /// Accepts a SET without recording it.
    pub fn set(&mut self, _key: String, _data: Data) -> (r: Result<(), Error>)
        ensures
            r is Ok,
    {
        Ok(())
    }

    /// Accepts a DEL without recording it.
    pub fn remove(&mut self, _key: String) -> (r: Result<(), Error>)
        ensures
            r is Ok,
    {
        Ok(())
    }

    /// Loads the empty store.
    pub fn load(&mut self) -> (r: Result<StoreMap, Error>)
        ensures
            r matches Ok(m) && m@ == Map::<Seq<char>, DataView>::empty() && m.pairs().len() == 0,
    {
        Ok(StoreMap::new())
    }

    /// Empties the (already empty) log.
    pub fn clear(&mut self) -> (r: Result<(), Error>)
        ensures
            r is Ok,
    {
        Ok(())
    }
}

/// The encoded SET record for one key/value pair.
pub open spec fn set_record(k: Seq<char>, v: DataView) -> Seq<char> {
    seq!['$'] + dec_nat(k.len()) + crlf() + k + dec_nat(encode_data(v).len()) + crlf()
        + encode_data(v)
}

/// The encoded DEL record for one key.
pub open spec fn del_record(k: Seq<char>) -> Seq<char> {
    seq!['#'] + dec_nat(k.len()) + crlf() + k
}

/// The position of the first carriage return in a text.
pub open spec fn find_cr(s: Seq<char>) -> Option<int>
    decreases s.len(),
{
    if s.len() == 0 {
        None
    } else if s[0] == '\r' {
        Some(0)
    } else {
        match find_cr(s.skip(1)) {
            Some(i) => Some(i + 1),
            None => None,
        }
    }
}

pub proof fn lemma_find_cr_bounds(s: Seq<char>)
    ensures
        find_cr(s) matches Some(i) ==> (0 <= i < s.len() && s[i] == '\r' && forall|j: int|
            0 <= j < i ==> s[j] != '\r'),
        find_cr(s) is None ==> forall|j: int| 0 <= j < s.len() ==> s[j] != '\r',
    decreases s.len(),
{
    if s.len() > 0 && s[0] != '\r' {
        lemma_find_cr_bounds(s.skip(1));
        if find_cr(s.skip(1)) is Some {
            let i = find_cr(s.skip(1)).unwrap();
            assert(s[i + 1] == s.skip(1)[i]);
            assert forall|j: int| 0 <= j < i + 1 implies s[j] != '\r' by {
                if j > 0 {
                    assert(s.skip(1)[j - 1] == s[j]);
                }
            }
        } else {
            assert forall|j: int| 0 <= j < s.len() implies s[j] != '\r' by {
                if j > 0 {
                    assert(s.skip(1)[j - 1] == s[j]);
                }
            }
        }
    }
}

/// Where the first carriage return is known, the search finds it.
pub proof fn lemma_find_cr_at(s: Seq<char>, i: int)
    requires
        0 <= i < s.len(),
        s[i] == '\r',
        forall|j: int| 0 <= j < i ==> s[j] != '\r',
    ensures
        find_cr(s) == Some(i),
    decreases i,
{
    if i > 0 {
        assert(forall|j: int| 0 <= j < i - 1 ==> s.skip(1)[j] == s[j + 1]);
        lemma_find_cr_at(s.skip(1), i - 1);
    }
}

/// Reads a length field: one or more decimal digits terminated by CRLF;
/// yields the value and what follows the terminator.
pub open spec fn read_len(s: Seq<char>) -> Option<(int, Seq<char>)> {
    match find_cr(s) {
        None => None,
        Some(i) => {
            if i + 1 < s.len() && s[i + 1] == '\n' && i >= 1 && all_digits(s.take(i)) {
                Some((dec_digits_val(s.take(i)), s.skip(i + 2)))
            } else {
                None
            }
        },
    }
}

/// Replaying a log text onto a store, record by record: SET inserts,
/// DEL removes, anything else is an error, and a record cut short by
/// the end of the text is an error.
pub open spec fn replay(s: Seq<char>, ps: Pairs) -> Option<Pairs>
    decreases s.len(),
    via replay_decreases
{
    if s.len() == 0 {
        Some(ps)
    } else if s[0] == '$' {
        match read_len(s.skip(1)) {
            None => None,
            Some((n, rest)) => if rest.len() < n {
                None
            } else {
                let k = rest.take(n);
                let rest2 = rest.skip(n);
                match read_len(rest2) {
                    None => None,
                    Some((m, rest3)) => if rest3.len() < m {
                        None
                    } else {
                        match decode_data(rest3.take(m)) {
                            None => None,
                            Some(v) => replay(rest3.skip(m), pairs_insert(ps, k, v)),
                        }
                    },
                }
            },
        }
    } else if s[0] == '#' {
        match read_len(s.skip(1)) {
            None => None,
            Some((n, rest)) => if rest.len() < n {
                None
            } else {
                replay(rest.skip(n), pairs_remove(ps, rest.take(n)))
            },
        }
    } else {
        None
    }
}

#[via_fn]
proof fn replay_decreases(s: Seq<char>, ps: Pairs) {
    if s.len() > 0 {
        let s1 = s.skip(1);
        lemma_find_cr_bounds(s1);
        if read_len(s1) is Some {
            let i = find_cr(s1).unwrap();
            let n = read_len(s1).unwrap().0;
            let rest = read_len(s1).unwrap().1;
            assert(all_digits(s1.take(i)));
            lemma_dec_val_nonneg(s1.take(i));
            assert(n >= 0);
            assert(rest == s1.skip(i + 2));
            assert(rest.len() < s.len());
            if n <= rest.len() {
                let rest2 = rest.skip(n);
                assert(rest2.len() <= rest.len());
                lemma_find_cr_bounds(rest2);
                if read_len(rest2) is Some {
                    let i2 = find_cr(rest2).unwrap();
                    let m = read_len(rest2).unwrap().0;
                    let rest3 = read_len(rest2).unwrap().1;
                    assert(all_digits(rest2.take(i2)));
                    lemma_dec_val_nonneg(rest2.take(i2));
                    assert(m >= 0);
                    assert(rest3.len() < rest2.len());
                    if m <= rest3.len() {
                        assert(rest3.skip(m).len() < s.len());
                    }
                }
            }
        }
    }
}

/// What replaying a whole log from nothing yields.
pub open spec fn replay_full(s: Seq<char>) -> Option<Pairs> {
    replay(s, Seq::empty())
}

/// The error kind a failed replay reports. Every structural
/// malformation — a bad tag, a bad length field, a record cut short —
/// is an invalid serialized string; only a well-framed value payload
/// that fails to decode reports the codec's own kind, which is a JSON
/// error exactly for a well-framed `?` payload that does not parse.
/// Where the replay succeeds the result is immaterial.
pub open spec fn replay_err_kind(s: Seq<char>) -> ErrorKind
    decreases s.len(),
    via replay_err_kind_decreases
{
    if s.len() == 0 {
        ErrorKind::InvalidSerializedString
    } else if s[0] == '$' {
        match read_len(s.skip(1)) {
            None => ErrorKind::InvalidSerializedString,
            Some((n, rest)) => if rest.len() < n {
                ErrorKind::InvalidSerializedString
            } else {
                match read_len(rest.skip(n)) {
                    None => ErrorKind::InvalidSerializedString,
                    Some((m, rest3)) => if rest3.len() < m {
                        ErrorKind::InvalidSerializedString
                    } else {
                        match decode_data(rest3.take(m)) {
                            None => crate::data::decode_err_kind(rest3.take(m)),
                            Some(_) => replay_err_kind(rest3.skip(m)),
                        }
                    },
                }
            },
        }
    } else if s[0] == '#' {
        match read_len(s.skip(1)) {
            None => ErrorKind::InvalidSerializedString,
            Some((n, rest)) => if rest.len() < n {
                ErrorKind::InvalidSerializedString
            } else {
                replay_err_kind(rest.skip(n))
            },
        }
    } else {
        ErrorKind::InvalidSerializedString
    }
}

#[via_fn]
proof fn replay_err_kind_decreases(s: Seq<char>) {
    if s.len() > 0 {
        let s1 = s.skip(1);
        lemma_find_cr_bounds(s1);
        if read_len(s1) is Some {
            let i = find_cr(s1).unwrap();
            let n = read_len(s1).unwrap().0;
            let rest = read_len(s1).unwrap().1;
            assert(all_digits(s1.take(i)));
            lemma_dec_val_nonneg(s1.take(i));
            assert(n >= 0);
            assert(rest == s1.skip(i + 2));
            assert(rest.len() < s.len());
            if n <= rest.len() {
                let rest2 = rest.skip(n);
                assert(rest2.len() <= rest.len());
                lemma_find_cr_bounds(rest2);
                if read_len(rest2) is Some {
                    let i2 = find_cr(rest2).unwrap();
                    let m = read_len(rest2).unwrap().0;
                    let rest3 = read_len(rest2).unwrap().1;
                    assert(all_digits(rest2.take(i2)));
                    lemma_dec_val_nonneg(rest2.take(i2));
                    assert(m >= 0);
                    assert(rest3.len() < rest2.len());
                    if m <= rest3.len() {
                        assert(rest3.skip(m).len() < s.len());
                    }
                }
            }
        }
    }
}

/// A length field followed by anything reads back as itself.
pub proof fn lemma_read_len_field(n: nat, rest: Seq<char>)
    ensures
        read_len(dec_nat(n) + crlf() + rest) == Some((n as int, rest)),
{
    let d = dec_nat(n);
    lemma_dec_nat_val(n);
    let s = d + crlf() + rest;
    assert(s[d.len() as int] == '\r');
    assert forall|j: int| 0 <= j < d.len() implies s[j] != '\r' by {
        assert(s[j] == d[j]);
        assert(is_digit(d[j]));
    }
    lemma_find_cr_at(s, d.len() as int);
    assert(s[d.len() as int + 1] == '\n');
    assert(s.take(d.len() as int) =~= d);
    assert(s.skip(d.len() as int + 2) =~= rest);
}

/// A SET record at the head of a log inserts its pair and leaves the
/// tail to replay.
#[verifier::rlimit(100)]
#[verifier::spinoff_prover]
pub proof fn lemma_replay_set_record(k: Seq<char>, v: DataView, t: Seq<char>, ps: Pairs)
    requires
        data_wf(v),
    ensures
        replay(set_record(k, v) + t, ps) == replay(t, pairs_insert(ps, k, v)),
{
    let e = encode_data(v);
    let s = set_record(k, v) + t;
    let tail1 = k + dec_nat(e.len()) + crlf() + e + t;
    assert(s[0] == '$');
    assert(s.len() > 0);
    assert(s.skip(1) =~= dec_nat(k.len()) + crlf() + tail1);
    lemma_read_len_field(k.len(), tail1);
    assert(read_len(s.skip(1)) == Some((k.len() as int, tail1)));
    assert(tail1.len() >= k.len());
    assert(tail1.take(k.len() as int) =~= k);
    let tail2 = e + t;
    assert(tail1.skip(k.len() as int) =~= dec_nat(e.len()) + crlf() + tail2);
    lemma_read_len_field(e.len(), tail2);
    assert(tail2.len() >= e.len());
    assert(tail2.take(e.len() as int) =~= e);
    lemma_codec_round_trip(v);
    assert(decode_data(e) == Some(v));
    assert(tail2.skip(e.len() as int) =~= t);
}

/// A DEL record at the head of a log removes its key and leaves the
/// tail to replay.
pub proof fn lemma_replay_del_record(k: Seq<char>, t: Seq<char>, ps: Pairs)
    ensures
        replay(del_record(k) + t, ps) == replay(t, pairs_remove(ps, k)),
{
    let s = del_record(k) + t;
    let tail1 = k + t;
    assert(s[0] == '#');
    assert(s.len() > 0);
    assert(s.skip(1) =~= dec_nat(k.len()) + crlf() + tail1);
    lemma_read_len_field(k.len(), tail1);
    assert(tail1.len() >= k.len());
    assert(tail1.take(k.len() as int) =~= k);
    assert(tail1.skip(k.len() as int) =~= t);
}

/// One effect of a committed transaction: set the key to a value, or
/// remove it.
pub type Effect = (Seq<char>, Option<DataView>);

/// The log record of one effect.
pub open spec fn effect_record(e: Effect) -> Seq<char> {
    match e.1 {
        Some(v) => set_record(e.0, v),
        None => del_record(e.0),
    }
}

/// The log text of a list of effects, in order.
pub open spec fn effects_text(es: Seq<Effect>) -> Seq<char>
    decreases es.len(),
{
    if es.len() == 0 {
        Seq::empty()
    } else {
        effect_record(es[0]) + effects_text(es.skip(1))
    }
}

/// One effect applied to a store.
pub open spec fn apply_effect(ps: Pairs, e: Effect) -> Pairs {
    match e.1 {
        Some(v) => pairs_insert(ps, e.0, v),
        None => pairs_remove(ps, e.0),
    }
}

/// A list of effects applied to a store, in order.
pub open spec fn apply_effects(ps: Pairs, es: Seq<Effect>) -> Pairs
    decreases es.len(),
{
    if es.len() == 0 {
        ps
    } else {
        apply_effects(apply_effect(ps, es[0]), es.skip(1))
    }
}

/// Every value set by a list of effects is well-formed.
pub open spec fn effects_wf(es: Seq<Effect>) -> bool {
    forall|i: int|
        0 <= i < es.len() ==> ((#[trigger] es[i]).1 matches Some(v) ==> data_wf(v))
}

/// Replaying the log text of a list of effects applies exactly those
/// effects, in order.
pub proof fn lemma_replay_effects(es: Seq<Effect>, t: Seq<char>, ps: Pairs)
    requires
        effects_wf(es),
    ensures
        replay(effects_text(es) + t, ps) == replay(t, apply_effects(ps, es)),
    decreases es.len(),
{
    if es.len() == 0 {
        assert(effects_text(es) + t =~= t);
    } else {
        let e0 = es[0];
        let rest = es.skip(1);
        assert(effects_text(es) + t =~= effect_record(e0) + (effects_text(rest) + t));
        match e0.1 {
            Some(v) => {
                lemma_replay_set_record(e0.0, v, effects_text(rest) + t, ps);
            },
            None => {
                lemma_replay_del_record(e0.0, effects_text(rest) + t, ps);
            },
        }
        lemma_replay_effects(rest, t, apply_effect(ps, e0));
    }
}

/// The pairs of a store, each read as a SET effect.
pub open spec fn pairs_as_sets(ps: Pairs) -> Seq<Effect> {
    Seq::new(ps.len(), |i: int| (ps[i].0, Some(ps[i].1)))
}

/// The full image of a store: one SET record per entry, in key order.
pub open spec fn image_pairs(ps: Pairs) -> Seq<char> {
    effects_text(pairs_as_sets(ps))
}

/// Every value of a list of pairs is well-formed.
pub open spec fn pairs_wf(ps: Pairs) -> bool {
    forall|i: int| 0 <= i < ps.len() ==> data_wf((#[trigger] ps[i]).1)
}

/// Applying SET effects whose keys all lie above a sorted store appends
/// them in order.
proof fn lemma_apply_sets_above(acc: Pairs, ps: Pairs)
    requires
        crate::store::sorted_pairs(acc),
        crate::store::sorted_pairs(ps),
        forall|i: int, j: int|
            0 <= i < acc.len() && 0 <= j < ps.len() ==> crate::store::lex_lt(
                (#[trigger] acc[i]).0,
                (#[trigger] ps[j]).0,
            ),
    ensures
        apply_effects(acc, pairs_as_sets(ps)) == acc + ps,
    decreases ps.len(),
{
    if ps.len() == 0 {
        assert(acc + ps =~= acc);
    } else {
        let p0 = ps[0];
        crate::store::lemma_pairs_insert_append(acc, p0.0, p0.1);
        let acc2 = acc.push((p0.0, p0.1));
        assert(acc2 =~= acc.push(p0));
        let tail = ps.skip(1);
        assert forall|a: int, b: int| 0 <= a < b < tail.len() implies crate::store::lex_lt(
            (#[trigger] tail[a]).0,
            (#[trigger] tail[b]).0,
        ) by {
            assert(tail[a] == ps[a + 1] && tail[b] == ps[b + 1]);
        }
        assert forall|a: int, b: int|
            0 <= a < acc2.len() && 0 <= b < tail.len() implies crate::store::lex_lt(
            (#[trigger] acc2[a]).0,
            (#[trigger] tail[b]).0,
        ) by {
            assert(tail[b] == ps[b + 1]);
            if a < acc.len() {
                assert(acc2[a] == acc[a]);
            } else {
                assert(acc2[a] == ps[0]);
                assert(crate::store::lex_lt(ps[0].0, ps[b + 1].0));
            }
        }
        assert forall|a: int, b: int| 0 <= a < b < acc2.len() implies crate::store::lex_lt(
            (#[trigger] acc2[a]).0,
            (#[trigger] acc2[b]).0,
        ) by {
            if b < acc.len() {
                assert(acc2[a] == acc[a] && acc2[b] == acc[b]);
            } else {
                assert(acc2[b] == ps[0]);
                if a < acc.len() {
                    assert(acc2[a] == acc[a]);
                }
            }
        }
        lemma_apply_sets_above(acc2, tail);
        assert(pairs_as_sets(ps).skip(1) =~= pairs_as_sets(tail));
        assert(apply_effect(acc, pairs_as_sets(ps)[0]) == acc2);
        assert(acc2 + tail =~= acc + ps);
    }
}

/// Replaying the image of a sorted store of well-formed values from an
/// empty store reproduces it exactly.
pub proof fn lemma_replay_image(ps: Pairs)
    requires
        crate::store::sorted_pairs(ps),
        pairs_wf(ps),
    ensures
        replay_full(image_pairs(ps)) == Some(ps),
{
    assert(effects_wf(pairs_as_sets(ps)));
    lemma_replay_effects(pairs_as_sets(ps), Seq::empty(), Seq::empty());
    assert(image_pairs(ps) + Seq::<char>::empty() =~= image_pairs(ps));
    lemma_apply_sets_above(Seq::empty(), ps);
    assert(Seq::<(Seq<char>, DataView)>::empty() + ps =~= ps);
}


/// A length field reads the same when more text follows.
proof fn lemma_read_len_concat(a: Seq<char>, b: Seq<char>)
    requires
        read_len(a) is Some,
    ensures
        read_len(a + b) matches Some((n2, rest2)) && n2 == read_len(a).unwrap().0 && rest2
            == read_len(a).unwrap().1 + b,
{
    lemma_find_cr_bounds(a);
    let i = find_cr(a).unwrap();
    assert forall|j: int| 0 <= j < i implies (a + b)[j] != '\r' by {
        assert((a + b)[j] == a[j]);
    }
    assert((a + b)[i] == a[i]);
    lemma_find_cr_at(a + b, i);
    assert((a + b)[i + 1] == a[i + 1]);
    assert((a + b).take(i) =~= a.take(i));
    assert((a + b).skip(i + 2) =~= a.skip(i + 2) + b);
}

/// A log that replays cleanly keeps its meaning when more log text is
/// appended: the rest replays from where the first part ended.
#[verifier::rlimit(100)]
#[verifier::spinoff_prover]
pub proof fn lemma_replay_append(s: Seq<char>, t: Seq<char>, ps: Pairs)
    requires
        replay(s, ps) is Some,
    ensures
        replay(s + t, ps) == replay(t, replay(s, ps).unwrap()),
    decreases s.len(),
{
    if s.len() == 0 {
        assert(s + t =~= t);
    } else {
        let s1 = s.skip(1);
        assert((s + t)[0] == s[0]);
        assert((s + t).skip(1) =~= s1 + t);
        lemma_find_cr_bounds(s1);
        let i = find_cr(s1).unwrap();
        let n = read_len(s1).unwrap().0;
        let rest = read_len(s1).unwrap().1;
        assert(all_digits(s1.take(i)));
        lemma_dec_val_nonneg(s1.take(i));
        lemma_read_len_concat(s1, t);
        if s[0] == '$' {
            let k = rest.take(n);
            let rest2 = rest.skip(n);
            assert((rest + t).take(n) =~= k);
            assert((rest + t).skip(n) =~= rest2 + t);
            let i2 = find_cr(rest2).unwrap();
            let m = read_len(rest2).unwrap().0;
            let rest3 = read_len(rest2).unwrap().1;
            lemma_find_cr_bounds(rest2);
            assert(all_digits(rest2.take(i2)));
            lemma_dec_val_nonneg(rest2.take(i2));
            lemma_read_len_concat(rest2, t);
            assert((rest3 + t).take(m) =~= rest3.take(m));
            assert((rest3 + t).skip(m) =~= rest3.skip(m) + t);
            let v = decode_data(rest3.take(m)).unwrap();
            assert(rest3.skip(m).len() < s.len());
            lemma_replay_append(rest3.skip(m), t, pairs_insert(ps, k, v));
        } else {
            let k = rest.take(n);
            assert((rest + t).take(n) =~= k);
            assert((rest + t).skip(n) =~= rest.skip(n) + t);
            assert(rest.skip(n).len() < s.len());
            lemma_replay_append(rest.skip(n), t, pairs_remove(ps, k));
        }
    }
}

/// The log text of one more effect extends the text of those before it.
pub proof fn lemma_effects_text_push(es: Seq<Effect>, e: Effect)
    ensures
        effects_text(es.push(e)) == effects_text(es) + effect_record(e),
    decreases es.len(),
{
    if es.len() == 0 {
        assert(es.push(e)[0] == e);
        assert(es.push(e).skip(1) =~= Seq::<Effect>::empty());
        assert(effects_text(es.push(e)) == effect_record(e) + effects_text(
            Seq::<Effect>::empty(),
        ));
        assert(effects_text(es.push(e)) =~= effects_text(es) + effect_record(e));
    } else {
        assert(es.push(e)[0] == es[0]);
        assert(es.push(e).skip(1) =~= es.skip(1).push(e));
        lemma_effects_text_push(es.skip(1), e);
        assert(effects_text(es.push(e)) == effect_record(es[0]) + (effects_text(es.skip(1))
            + effect_record(e)));
        assert(effects_text(es.push(e)) =~= effects_text(es) + effect_record(e));
    }
}

/// Serializes one SET record.
pub fn encode_set_record(key: &str, value: &Data) -> (r: String)
    ensures
        r@ == set_record(key@, value@),
{
    let mut out = String::new();
    out.push('$');
    let klen = key.unicode_len();
    crate::data::push_dec_u64(klen as u64, &mut out);
    out.push('\r');
    out.push('\n');
    out.append(key);
    let vs = value.clone().into_string();
    let vlen = vs.as_str().unicode_len();
    crate::data::push_dec_u64(vlen as u64, &mut out);
    out.push('\r');
    out.push('\n');
    out.append(vs.as_str());
    proof {
        assert(out@ =~= set_record(key@, value@));
    }
    out
}

/// Serializes one DEL record.
pub fn encode_del_record(key: &str) -> (r: String)
    ensures
        r@ == del_record(key@),
{
    let mut out = String::new();
    out.push('#');
    let klen = key.unicode_len();
    crate::data::push_dec_u64(klen as u64, &mut out);
    out.push('\r');
    out.push('\n');
    out.append(key);
    proof {
        assert(out@ =~= del_record(key@));
    }
    out
}

/// Serializes the full image of a store: one SET record per entry, in
/// key order.
pub fn store_image(m: &StoreMap) -> (r: String)
    ensures
        r@ == image_pairs(m.pairs()),
{
    let ghost ps = m.pairs();
    let n = m.len();
    let mut out = String::new();
    proof {
        assert(pairs_as_sets(ps.take(0)) =~= Seq::<Effect>::empty());
    }
    let mut i: usize = 0;
    while i < n
        invariant
            i <= n,
            n == ps.len(),
            ps == m.pairs(),
            out@ == image_pairs(ps.take(i as int)),
        decreases n - i,
    {
        let rec = encode_set_record(m.key_at(i).as_str(), m.val_at(i));
        out.append(rec.as_str());
        proof {
            assert(pairs_as_sets(ps.take(i + 1)) =~= pairs_as_sets(ps.take(i as int)).push(
                (ps[i as int].0, Some(ps[i as int].1)),
            ));
            lemma_effects_text_push(
                pairs_as_sets(ps.take(i as int)),
                (ps[i as int].0, Some(ps[i as int].1)),
            );
        }
        i += 1;
    }
    proof {
        assert(ps.take(n as int) =~= ps);
    }
    out
}


/// The characters of a text, one by one.
fn chars_of(s: &str) -> (v: Vec<char>)
    ensures
        v@ == s@,
{
    let n = s.unicode_len();
    let mut v: Vec<char> = Vec::new();
    let mut i: usize = 0;
    while i < n
        invariant
            i <= n,
            n == s@.len(),
            v@ == s@.subrange(0, i as int),
        decreases n - i,
    {
        let c = s.get_char(i);
        v.push(c);
        proof {
            assert(v@ =~= s@.subrange(0, i + 1));
        }
        i += 1;
    }
    proof {
        assert(s@.subrange(0, n as int) =~= s@);
    }
    v
}

/// A range of characters gathered back into a text.
fn string_of_range(cs: &Vec<char>, from: usize, to: usize) -> (r: String)
    requires
        from <= to <= cs@.len(),
    ensures
        r@ == cs@.subrange(from as int, to as int),
{
    let mut r = String::new();
    let mut i: usize = from;
    while i < to
        invariant
            from <= i <= to <= cs@.len(),
            r@ == cs@.subrange(from as int, i as int),
        decreases to - i,
    {
        r.push(cs[i]);
        proof {
            assert(r@ =~= cs@.subrange(from as int, i + 1));
        }
        i += 1;
    }
    r
}

/// Whether a character is a decimal digit.
fn is_digit_char(c: char) -> (r: bool)
    ensures
        r == is_digit(c),
{
    let cu = c as u32;
    48 <= cu && cu <= 57
}

/// Reads a length field of the log at a position: digits, then CRLF.
/// Fails exactly where the field is malformed or declares more
/// characters than the whole log holds.
#[verifier::rlimit(100)]
#[verifier::spinoff_prover]
fn read_len_at(cs: &Vec<char>, pos: usize) -> (r: Result<(usize, usize), Error>)
    requires
        pos <= cs@.len(),
    ensures
        r matches Ok((n, p2)) ==> (read_len(cs@.skip(pos as int)) == Some(
            (n as int, cs@.skip(p2 as int)),
        ) && pos + 3 <= p2 <= cs@.len()),
        r is Err ==> match read_len(cs@.skip(pos as int)) {
            None => true,
            Some((n2, rest)) => n2 > rest.len(),
        },
        r matches Err(e) ==> e.kind == ErrorKind::InvalidSerializedString,
{
    let ghost s = cs@.skip(pos as int);
    let len = cs.len();
    let limit: u64 = len as u64;
    let mut acc: u64 = 0;
    let mut j: usize = pos;
    while j < len && is_digit_char(cs[j])
        invariant
            pos <= j <= len,
            len == cs@.len(),
            s == cs@.skip(pos as int),
            all_digits(cs@.subrange(pos as int, j as int)),
            acc as int == dec_digits_val(cs@.subrange(pos as int, j as int)),
            acc <= limit,
            limit == len as u64,
        decreases len - j,
    {
        let c = cs[j];
        let cu = c as u32;
        let d = (cu - 48) as u64;
        let over: bool = if d > limit {
            true
        } else {
            proof {
                vstd::arithmetic::div_mod::lemma_fundamental_div_mod((limit - d) as int, 10);
                vstd::arithmetic::div_mod::lemma_mod_bound((limit - d) as int, 10);
            }
            acc > (limit - d) / 10
        };
        if over {
            proof {
                assert(acc * 10 + d > limit);
                lemma_find_cr_bounds(s);
                if read_len(s) is Some {
                    let i = find_cr(s).unwrap();
                    assert forall|q: int| pos <= q <= j implies is_digit(cs@[q]) by {
                        if q < j {
                            assert(cs@.subrange(pos as int, j as int)[q - pos] == cs@[q]);
                        }
                    }
                    assert(i > j - pos) by {
                        assert(s[i] == cs@[pos + i]);
                        if i <= j - pos {
                            assert(is_digit(cs@[pos + i]));
                        }
                    }
                    let pre = s.take(j + 1 - pos);
                    assert(pre.drop_last() =~= cs@.subrange(pos as int, j as int));
                    assert(pre.last() == cs@[j as int]);
                    assert(dec_digits_val(pre) == acc * 10 + d);
                    assert(pre =~= s.take(i).take(j + 1 - pos));
                    crate::data::lemma_dec_val_prefix_le(s.take(i), j + 1 - pos);
                    assert(dec_digits_val(s.take(i)) > limit);
                    let rest = read_len(s).unwrap().1;
                    assert(rest.len() <= cs@.len());
                }
            }
            return Err(Error::new(ErrorKind::InvalidSerializedString));
        }
        proof {
            vstd::arithmetic::div_mod::lemma_fundamental_div_mod((limit - d) as int, 10);
            vstd::arithmetic::div_mod::lemma_mod_bound((limit - d) as int, 10);
            assert(acc * 10 + d <= limit);
            let pre = cs@.subrange(pos as int, j + 1 as int);
            assert(pre.drop_last() =~= cs@.subrange(pos as int, j as int));
            assert(pre.last() == cs@[j as int]);
        }
        acc = acc * 10 + d;
        j += 1;
    }
    proof {
        assert forall|q: int| 0 <= q < j - pos implies is_digit(s[q]) by {
            assert(cs@.subrange(pos as int, j as int)[q] == s[q]);
        }
    }
    if j == len {
        proof {
            lemma_find_cr_bounds(s);
            if find_cr(s) is Some {
                let i = find_cr(s).unwrap();
                assert(is_digit(s[i]));
            }
        }
        return Err(Error::new(ErrorKind::InvalidSerializedString));
    }
    let c = cs[j];
    if c != '\r' {
        proof {
            lemma_find_cr_bounds(s);
            if read_len(s) is Some {
                let i = find_cr(s).unwrap();
                assert(s[j - pos] == cs@[j as int]);
                assert(i != j - pos);
                if i < j - pos {
                    assert(is_digit(s[i]));
                }
                assert(i > j - pos);
                assert(s.take(i)[j - pos] == s[j - pos]);
                assert(!is_digit(s[j - pos]));
                assert(!all_digits(s.take(i)));
            }
        }
        return Err(Error::new(ErrorKind::InvalidSerializedString));
    }
    proof {
        assert(s[j - pos] == cs@[j as int]);
        lemma_find_cr_at(s, j - pos);
    }
    if j == pos {
        return Err(Error::new(ErrorKind::InvalidSerializedString));
    }
    if j + 1 >= len {
        return Err(Error::new(ErrorKind::InvalidSerializedString));
    }
    if cs[j + 1] != '\n' {
        proof {
            assert(s[j + 1 - pos] == cs@[j + 1]);
        }
        return Err(Error::new(ErrorKind::InvalidSerializedString));
    }
    proof {
        assert(s[j + 1 - pos] == cs@[j + 1]);
        assert(s.take(j - pos) =~= cs@.subrange(pos as int, j as int));
        assert(s.skip(j - pos + 2) =~= cs@.skip(j + 2));
    }
    Ok((acc as usize, j + 2))
}

/// Replays a whole log text into a fresh store: SET inserts, DEL
/// removes; a malformed or truncated record is rejected as an invalid
/// serialized string, and a well-framed value payload that fails to
/// decode is rejected with the codec's error.
pub fn load_from_str(content: &str) -> (r: Result<StoreMap, Error>)
    ensures
        replay_full(content@) matches Some(ps) ==> (r matches Ok(m) && m.pairs() == ps),
        replay_full(content@) is None ==> (r matches Err(e) && e.kind == replay_err_kind(
            content@,
        )),
{
    let cs = chars_of(content);
    let len = cs.len();
    let mut m = StoreMap::new();
    proof {
        assert(cs@.skip(0) =~= cs@);
        assert(m.pairs() =~= Seq::<(Seq<char>, DataView)>::empty());
    }
    let mut pos: usize = 0;
    while pos < len
        invariant
            pos <= len,
            len == cs@.len(),
            cs@ == content@,
            replay(content@, Seq::<(Seq<char>, DataView)>::empty()) == replay(
                cs@.skip(pos as int),
                m.pairs(),
            ),
            replay_err_kind(content@) == replay_err_kind(cs@.skip(pos as int)),
        decreases len - pos,
    {
        let ghost s = cs@.skip(pos as int);
        let ghost mp = m.pairs();
        let tag = cs[pos];
        proof {
            assert(s[0] == tag);
            assert(s.skip(1) =~= cs@.skip(pos + 1));
        }
        if tag == '$' {
            let (klen, p2) = match read_len_at(&cs, pos + 1) {
                Ok(x) => x,
                Err(e) => {
                    return Err(e);
                },
            };
            if len - p2 < klen {
                return Err(Error::new(ErrorKind::InvalidSerializedString));
            }
            let key = string_of_range(&cs, p2, p2 + klen);
            proof {
                assert(cs@.skip(p2 as int).take(klen as int) =~= cs@.subrange(
                    p2 as int,
                    p2 + klen,
                ));
                assert(cs@.skip(p2 as int).skip(klen as int) =~= cs@.skip(p2 + klen));
            }
            let (vlen, p3) = match read_len_at(&cs, p2 + klen) {
                Ok(x) => x,
                Err(e) => {
                    return Err(e);
                },
            };
            if len - p3 < vlen {
                return Err(Error::new(ErrorKind::InvalidSerializedString));
            }
            let vstr = string_of_range(&cs, p3, p3 + vlen);
            proof {
                assert(cs@.skip(p3 as int).take(vlen as int) =~= cs@.subrange(
                    p3 as int,
                    p3 + vlen,
                ));
            }
            match Data::try_from(vstr) {
                Ok(d) => {
                    let _ = m.insert(key.as_str(), d);
                    proof {
                        assert(cs@.skip(p3 as int).skip(vlen as int) =~= cs@.skip(p3 + vlen));
                    }
                    pos = p3 + vlen;
                },
                Err(e) => {
                    proof {
                        assert(e.kind == ErrorKind::InvalidSerializedString || e.kind
                            == ErrorKind::JsonParseError);
                    }
                    return Err(e);
                },
            }
        } else if tag == '#' {
            let (klen, p2) = match read_len_at(&cs, pos + 1) {
                Ok(x) => x,
                Err(e) => {
                    return Err(e);
                },
            };
            if len - p2 < klen {
                return Err(Error::new(ErrorKind::InvalidSerializedString));
            }
            let key = string_of_range(&cs, p2, p2 + klen);
            proof {
                assert(cs@.skip(p2 as int).take(klen as int) =~= cs@.subrange(
                    p2 as int,
                    p2 + klen,
                ));
                assert(cs@.skip(p2 as int).skip(klen as int) =~= cs@.skip(p2 + klen));
            }
            let _ = m.remove(key.as_str());
            pos = p2 + klen;
        } else {
            return Err(Error::new(ErrorKind::InvalidSerializedString));
        }
    }
    proof {
        assert(cs@.skip(len as int) =~= Seq::<char>::empty());
    }
    Ok(m)
}


/// The log text of two effect lists in sequence is the two texts in
/// sequence.
pub proof fn lemma_effects_text_concat(a: Seq<Effect>, b: Seq<Effect>)
    ensures
        effects_text(a + b) == effects_text(a) + effects_text(b),
    decreases a.len(),
{
    if a.len() == 0 {
        assert(a + b =~= b);
        assert(effects_text(a) + effects_text(b) =~= effects_text(b));
    } else {
        assert((a + b)[0] == a[0]);
        assert((a + b).skip(1) =~= a.skip(1) + b);
        lemma_effects_text_concat(a.skip(1), b);
        assert(effects_text(a + b) == effect_record(a[0]) + (effects_text(a.skip(1))
            + effects_text(b)));
        assert(effects_text(a + b) =~= effects_text(a) + effects_text(b));
    }
}

/// Applying one more effect extends the application of those before it.
pub proof fn lemma_apply_effects_push(ps: Pairs, es: Seq<Effect>, e: Effect)
    ensures
        apply_effects(ps, es.push(e)) == apply_effect(apply_effects(ps, es), e),
    decreases es.len(),
{
    if es.len() == 0 {
        assert(es.push(e)[0] == e);
        assert(es.push(e).skip(1) =~= Seq::<Effect>::empty());
        assert(apply_effects(ps, es.push(e)) == apply_effects(
            apply_effect(ps, e),
            es.push(e).skip(1),
        ));
        assert(apply_effects(apply_effect(ps, e), es.push(e).skip(1)) == apply_effect(ps, e));
        assert(apply_effects(ps, es) == ps);
    } else {
        assert(es.push(e)[0] == es[0]);
        assert(es.push(e).skip(1) =~= es.skip(1).push(e));
        lemma_apply_effects_push(apply_effect(ps, es[0]), es.skip(1), e);
        assert(apply_effects(ps, es.push(e)) == apply_effects(
            apply_effect(ps, es[0]),
            es.skip(1).push(e),
        ));
        assert(apply_effects(ps, es) == apply_effects(apply_effect(ps, es[0]), es.skip(1)));
    }
}

/// Effects applied in two runs equal the effects applied in one.
pub proof fn lemma_apply_effects_concat(ps: Pairs, a: Seq<Effect>, b: Seq<Effect>)
    ensures
        apply_effects(ps, a + b) == apply_effects(apply_effects(ps, a), b),
    decreases a.len(),
{
    if a.len() == 0 {
        assert(a + b =~= b);
    } else {
        assert((a + b)[0] == a[0]);
        assert((a + b).skip(1) =~= a.skip(1) + b);
        lemma_apply_effects_concat(apply_effect(ps, a[0]), a.skip(1), b);
    }
}

} // verus!
