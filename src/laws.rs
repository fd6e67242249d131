use vstd::prelude::*;
use crate::command_processor::{
    command_result, ok_text, parse_set, set_error_text, unsupported_text, SetError,
};
use crate::database::{deadline, evict, is_live, live_entries, lookup, without_keys, Stored};
use crate::tokenizer::{initial_scan, scan, scan_step, tokens_of, ScanState};

verus! {

/// A token that reads back as itself: non-empty, with no space and no double quote.
pub open spec fn is_simple_token(t: Seq<char>) -> bool {
    t.len() > 0 && forall|i: int| 0 <= i < t.len() ==> #[trigger] t[i] != ' ' && t[i] != '"'
}

/// The tokens written one after another with a single space between each two.
pub open spec fn join_spaces(toks: Seq<Seq<char>>) -> Seq<char>
    decreases toks.len(),
{
    if toks.len() == 0 {
        Seq::empty()
    } else if toks.len() == 1 {
        toks[0]
    } else {
        join_spaces(toks.drop_last()).push(' ') + toks.last()
    }
}

/// Characters that are neither spaces nor quotes extend the current token.
proof fn lemma_scan_plain(s: Seq<char>, t: Seq<char>)
    requires
        !scan(s).in_quotes,
        !scan(s).escaped,
        forall|i: int| 0 <= i < t.len() ==> #[trigger] t[i] != ' ' && t[i] != '"',
    ensures
        scan(s + t) == (ScanState { current: scan(s).current + t, ..scan(s) }),
    decreases t.len(),
{
    if t.len() == 0 {
        assert(s + t =~= s);
        assert(scan(s).current + t =~= scan(s).current);
    } else {
        let t0 = t.drop_last();
        assert forall|i: int| 0 <= i < t0.len() implies #[trigger] t0[i] != ' ' && t0[i] != '"' by {
            assert(t0[i] == t[i]);
        }
        lemma_scan_plain(s, t0);
        assert((s + t).drop_last() =~= s + t0);
        assert((s + t).last() == t[t.len() - 1]);
        assert(scan(s).current + t0 + seq![t.last()] =~= scan(s).current + t);
        assert(scan(s).current + t0 + seq![t.last()] =~= (scan(s).current + t0).push(t.last()));
    }
}

proof fn lemma_scan_join(toks: Seq<Seq<char>>)
    requires
        toks.len() > 0,
        forall|i: int| 0 <= i < toks.len() ==> is_simple_token(#[trigger] toks[i]),
    ensures
        scan(join_spaces(toks)) == (ScanState {
            tokens: toks.drop_last(),
            current: toks.last(),
            in_quotes: false,
            escaped: false,
        }),
    decreases toks.len(),
{
    if toks.len() == 1 {
        assert(scan(Seq::<char>::empty()) == initial_scan());
        lemma_scan_plain(Seq::empty(), toks[0]);
        assert(Seq::<char>::empty() + toks[0] =~= toks[0]);
        assert(toks.drop_last() =~= Seq::<Seq<char>>::empty());
    } else {
        let d = toks.drop_last();
        assert forall|i: int| 0 <= i < d.len() implies is_simple_token(#[trigger] d[i]) by {
            assert(d[i] == toks[i]);
        }
        lemma_scan_join(d);
        let pre = join_spaces(d);
        let sp = pre.push(' ');
        assert(sp.drop_last() =~= pre);
        assert(scan(sp) == scan_step(scan(pre), ' '));
        assert(d.last() == toks[toks.len() - 2]);
        assert(d.drop_last().push(d.last()) =~= d);
        lemma_scan_plain(sp, toks.last());
        assert(toks.last() == toks[toks.len() - 1]);
        assert(Seq::<char>::empty() + toks.last() =~= toks.last());
    }
}

/// Re-tokenizing simple tokens joined by single spaces gives back the same tokens.
pub proof fn law_retokenize_simple(toks: Seq<Seq<char>>)
    requires
        forall|i: int| 0 <= i < toks.len() ==> is_simple_token(#[trigger] toks[i]),
    ensures
        tokens_of(join_spaces(toks)) == toks,
{
    if toks.len() == 0 {
        assert(scan(Seq::<char>::empty()) == initial_scan());
    } else {
        lemma_scan_join(toks);
        assert(toks[toks.len() - 1] == toks.last());
        assert(toks.drop_last().push(toks.last()) =~= toks);
    }
}

/// A value just written is read back at the same instant, whatever its lifetime.
pub proof fn law_set_then_get(
    m: Map<Seq<char>, Stored>,
    k: Seq<char>,
    v: Seq<char>,
    ttl_secs: Option<u64>,
    now: u64,
)
    ensures
        lookup(m.insert(k, (v, deadline(now, ttl_secs))), k, now) == Some(v),
{
}

/// A value written with a lifetime of zero seconds is gone once any time has passed.
pub proof fn law_zero_ttl_expires(
    m: Map<Seq<char>, Stored>,
    k: Seq<char>,
    v: Seq<char>,
    now: u64,
    later: u64,
)
    requires
        now < later,
    ensures
        lookup(m.insert(k, (v, deadline(now, Some(0u64)))), k, later) is None,
{
}

/// A deleted key reads as absent.
pub proof fn law_del_then_get(
    m: Map<Seq<char>, Stored>,
    keys: Seq<Seq<char>>,
    k: Seq<char>,
    now: u64,
)
    requires
        keys.contains(k),
    ensures
        lookup(without_keys(m, keys), k, now) is None,
{
}

/// A sweep at `now` keeps every live entry unchanged, and every entry it keeps is live.
pub proof fn law_sweep_keeps_live(m: Map<Seq<char>, Stored>, now: u64)
    ensures
        forall|k: Seq<char>|
            #[trigger] m.contains_key(k) && is_live(m[k], now) ==> live_entries(m, now).contains_key(k)
                && live_entries(m, now)[k] == m[k],
        forall|k: Seq<char>| #[trigger]
            live_entries(m, now).contains_key(k) ==> m.contains_key(k) && is_live(m[k], now),
{
}

/// Writes to two different keys give the same store in either order, and each value
/// is read back while it is live.
pub proof fn law_disjoint_writes(
    m: Map<Seq<char>, Stored>,
    k1: Seq<char>,
    s1: Stored,
    k2: Seq<char>,
    s2: Stored,
    now: u64,
)
    requires
        k1 != k2,
        is_live(s1, now),
        is_live(s2, now),
    ensures
        m.insert(k1, s1).insert(k2, s2) == m.insert(k2, s2).insert(k1, s1),
        lookup(m.insert(k1, s1).insert(k2, s2), k1, now) == Some(s1.0),
        lookup(m.insert(k1, s1).insert(k2, s2), k2, now) == Some(s2.0),
{
    assert(m.insert(k1, s1).insert(k2, s2) =~= m.insert(k2, s2).insert(k1, s1));
}

/// A write and a sweep, in either order, leave a key written with a deadline that the
/// sweep's instant has not passed present with the written value.
pub proof fn law_write_survives_sweep(
    m: Map<Seq<char>, Stored>,
    k: Seq<char>,
    s: Stored,
    sweep_at: u64,
)
    requires
        is_live(s, sweep_at),
    ensures
        live_entries(m.insert(k, s), sweep_at).contains_key(k),
        live_entries(m.insert(k, s), sweep_at)[k] == s,
        live_entries(m, sweep_at).insert(k, s).contains_key(k),
        live_entries(m, sweep_at).insert(k, s)[k] == s,
{
}

/// One operation on the store, as the store's methods perform it.
pub enum StoreOp {
    /// A write of a value with an optional lifetime in seconds.
    Write(Seq<char>, Seq<char>, Option<u64>),
    /// A read, which drops the key's entry if it has expired.
    Read(Seq<char>),
    /// A removal of several keys.
    Delete(Seq<Seq<char>>),
    /// A sweep of every expired entry.
    Sweep,
}

/// The store after `op` is performed at instant `t`.
pub open spec fn apply_op(m: Map<Seq<char>, Stored>, op: StoreOp, t: u64) -> Map<Seq<char>, Stored> {
    match op {
        StoreOp::Write(k, v, ttl) => m.insert(k, (v, deadline(t, ttl))),
        StoreOp::Read(k) => evict(m, k, t),
        StoreOp::Delete(ks) => without_keys(m, ks),
        StoreOp::Sweep => live_entries(m, t),
    }
}

/// The store after each operation, paired with the instant it ran at, in order.
pub open spec fn run_ops(m: Map<Seq<char>, Stored>, ops: Seq<(StoreOp, u64)>) -> Map<
    Seq<char>,
    Stored,
>
    decreases ops.len(),
{
    if ops.len() == 0 {
        m
    } else {
        apply_op(run_ops(m, ops.drop_last()), ops.last().0, ops.last().1)
    }
}

/// Whether `op` writes `k`.
pub open spec fn writes(op: StoreOp, k: Seq<char>) -> bool {
    match op {
        StoreOp::Write(k2, _, _) => k2 == k,
        _ => false,
    }
}

/// Whether `op` writes or deletes `k`.
pub open spec fn touches(op: StoreOp, k: Seq<char>) -> bool {
    match op {
        StoreOp::Write(k2, _, _) => k2 == k,
        StoreOp::Delete(ks) => ks.contains(k),
        _ => false,
    }
}

/// Operations that neither write nor delete `k`, all run no later than its entry's
/// deadline, keep that entry unchanged.
pub proof fn law_entry_survives_other_ops(
    m: Map<Seq<char>, Stored>,
    k: Seq<char>,
    ops: Seq<(StoreOp, u64)>,
)
    requires
        m.contains_key(k),
        forall|i: int|
            0 <= i < ops.len() ==> !touches(#[trigger] ops[i].0, k) && is_live(m[k], ops[i].1),
    ensures
        run_ops(m, ops).contains_key(k),
        run_ops(m, ops)[k] == m[k],
    decreases ops.len(),
{
    if ops.len() > 0 {
        let d = ops.drop_last();
        assert forall|i: int| 0 <= i < d.len() implies !touches(#[trigger] d[i].0, k) && is_live(
            m[k],
            d[i].1,
        ) by {
            assert(d[i] == ops[i]);
        }
        law_entry_survives_other_ops(m, k, d);
        assert(ops.last() == ops[ops.len() - 1]);
    }
}

/// Operations that do not write `k` never bring back an entry for it, nor change the
/// one it has.
pub proof fn law_no_write_keeps_or_drops(
    m: Map<Seq<char>, Stored>,
    k: Seq<char>,
    ops: Seq<(StoreOp, u64)>,
)
    requires
        forall|i: int| 0 <= i < ops.len() ==> !writes(#[trigger] ops[i].0, k),
    ensures
        run_ops(m, ops).contains_key(k) ==> m.contains_key(k) && run_ops(m, ops)[k] == m[k],
    decreases ops.len(),
{
    if ops.len() > 0 {
        let d = ops.drop_last();
        assert forall|i: int| 0 <= i < d.len() implies !writes(#[trigger] d[i].0, k) by {
            assert(d[i] == ops[i]);
        }
        law_no_write_keeps_or_drops(m, k, d);
        assert(ops.last() == ops[ops.len() - 1]);
    }
}

/// A value written at `t0` is still read at any later `t1` up to its deadline, whatever
/// ran in between at instants up to `t1`, so long as nothing wrote or deleted its key.
pub proof fn law_set_then_get_later(
    m: Map<Seq<char>, Stored>,
    k: Seq<char>,
    v: Seq<char>,
    ttl_secs: Option<u64>,
    t0: u64,
    ops: Seq<(StoreOp, u64)>,
    t1: u64,
)
    requires
        t1 <= deadline(t0, ttl_secs),
        forall|i: int| 0 <= i < ops.len() ==> !touches(#[trigger] ops[i].0, k) && ops[i].1 <= t1,
    ensures
        lookup(run_ops(m.insert(k, (v, deadline(t0, ttl_secs))), ops), k, t1) == Some(v),
{
    law_entry_survives_other_ops(m.insert(k, (v, deadline(t0, ttl_secs))), k, ops);
}

/// A value written at `t0` with a lifetime of zero seconds is not read at any later
/// instant, whatever ran in between, so long as nothing wrote its key again; the read
/// also drops it from the store.
pub proof fn law_zero_ttl_gone_later(
    m: Map<Seq<char>, Stored>,
    k: Seq<char>,
    v: Seq<char>,
    t0: u64,
    ops: Seq<(StoreOp, u64)>,
    t1: u64,
)
    requires
        t0 < t1,
        forall|i: int| 0 <= i < ops.len() ==> !writes(#[trigger] ops[i].0, k),
    ensures
        lookup(run_ops(m.insert(k, (v, deadline(t0, Some(0u64)))), ops), k, t1) is None,
        !evict(run_ops(m.insert(k, (v, deadline(t0, Some(0u64)))), ops), k, t1).contains_key(k),
{
    law_no_write_keeps_or_drops(m.insert(k, (v, deadline(t0, Some(0u64)))), k, ops);
}

/// A deleted key reads as absent at any later instant, whatever ran in between, so
/// long as nothing wrote it again.
pub proof fn law_del_then_get_later(
    m: Map<Seq<char>, Stored>,
    keys: Seq<Seq<char>>,
    k: Seq<char>,
    ops: Seq<(StoreOp, u64)>,
    t1: u64,
)
    requires
        keys.contains(k),
        forall|i: int| 0 <= i < ops.len() ==> !writes(#[trigger] ops[i].0, k),
    ensures
        lookup(run_ops(without_keys(m, keys), ops), k, t1) is None,
{
    law_no_write_keeps_or_drops(without_keys(m, keys), k, ops);
}

/// A SET that is refused answers with its error and leaves the store as it was.
pub proof fn law_refused_set_leaves_store(
    args: Seq<Seq<char>>,
    m: Map<Seq<char>, Stored>,
    now: u64,
)
    requires
        parse_set(args) is Err,
    ensures
        command_result(seq!["SET"@] + args, m, now) == (set_error_text(parse_set(args)->Err_0), m),
        set_error_text(parse_set(args)->Err_0) != ok_text(),
{
    let toks = seq!["SET"@] + args;
    assert(toks[0] == "SET"@);
    assert(toks.drop_first() =~= args);
    reveal_strlit("+OK");
    reveal_strlit("-ERR EXPIRE specified without a value");
    reveal_strlit("-ERR Invalid EXPIRE value");
    reveal_strlit("-ERR SET command requires an even number of arguments.");
    let e = parse_set(args)->Err_0;
    assert(set_error_text(e)[1] != ok_text()[1]);
}

/// A line whose first token is not one of the three verbs, or that has no token,
/// answers with the unsupported-command error, which is no other response, and leaves
/// the store as it was.
pub proof fn law_unknown_verb(tokens: Seq<Seq<char>>, m: Map<Seq<char>, Stored>, now: u64)
    requires
        tokens.len() == 0 || (tokens[0] != "SET"@ && tokens[0] != "GET"@ && tokens[0] != "DEL"@),
    ensures
        command_result(tokens, m, now) == (unsupported_text(), m),
        unsupported_text() != ok_text(),
        unsupported_text()[0] != '[',
        forall|e: SetError| unsupported_text() != #[trigger] set_error_text(e),
{
    reveal_strlit("+OK");
    reveal_strlit("-ERR Unsupported command or syntax error.");
    reveal_strlit("-ERR EXPIRE specified without a value");
    reveal_strlit("-ERR Invalid EXPIRE value");
    reveal_strlit("-ERR SET command requires an even number of arguments.");
    assert(unsupported_text()[1] != ok_text()[1]);
    assert forall|e: SetError| unsupported_text() != #[trigger] set_error_text(e) by {
        assert(unsupported_text()[5] != set_error_text(e)[5]);
    }
}

} // verus!
