use vstd::prelude::*;
use vstd::std_specs::iter::IteratorSpec;
use vstd::string::StringExecFns;
use crate::database::{
    deadline, evict, lookup, without_keys, Database, Stored,
};
use crate::strings_view;
use crate::tokenizer::{push_char, tokenize_string, tokens_of};

verus! {

broadcast use vstd::string::group_string_axioms;

/// Why a SET command was refused.
pub enum SetError {
    /// `EXPIRE` was the last token.
    NoExpireValue,
    /// The token after `EXPIRE` is not a decimal number of seconds.
    BadExpireValue,
    /// The key/value tokens do not come in pairs.
    OddArguments,
}

pub open spec fn is_digit(c: char) -> bool {
    '0' <= c && c <= '9'
}

/// The number that a non-empty run of decimal digits spells.
pub open spec fn digits_value(s: Seq<char>) -> int
    decreases s.len(),
{
    if s.len() == 0 {
        0
    } else {
        digits_value(s.drop_last()) * 10 + (s.last() as int - '0' as int)
    }
}

/// An unsigned decimal number, with an optional leading `+`, that fits in 64 bits.
pub open spec fn decimal_u64(s: Seq<char>) -> Option<u64> {
    let d = if s.len() > 0 && s[0] == '+' {
        s.drop_first()
    } else {
        s
    };
    if d.len() > 0 && (forall|i: int| 0 <= i < d.len() ==> is_digit(#[trigger] d[i]))
        && digits_value(d) <= u64::MAX {
        Some(digits_value(d) as u64)
    } else {
        None
    }
}

/// Relies on `<u64 as FromStr>::from_str`: it accepts exactly an optional `+` followed
/// by one or more ASCII digits whose value fits in a u64.
#[verifier::external_body]
fn parse_u64(s: &String) -> (r: Option<u64>)
    ensures
        r == decimal_u64(s@),
{
    s.parse::<u64>().ok()
}

/// The reserved token that introduces an expiration.
pub open spec fn expire_word() -> Seq<char> {
    "EXPIRE"@
}

/// The state of a left-to-right scan over the arguments of SET.
pub struct SetScan {
    /// The key/value tokens seen so far.
    pub plain: Seq<Seq<char>>,
    /// The lifetime given by the last complete `EXPIRE`.
    pub ttl: Option<u64>,
    /// Whether the previous token was `EXPIRE`.
    pub pending: bool,
    /// The first error met, which ends the scan.
    pub error: Option<SetError>,
}

pub open spec fn set_scan_step(st: SetScan, tok: Seq<char>) -> SetScan {
    if st.error is Some {
        st
    } else if st.pending {
        match decimal_u64(tok) {
            Some(n) => SetScan { ttl: Some(n), pending: false, ..st },
            None => SetScan { pending: false, error: Some(SetError::BadExpireValue), ..st },
        }
    } else if tok == expire_word() {
        SetScan { pending: true, ..st }
    } else {
        SetScan { plain: st.plain.push(tok), ..st }
    }
}

pub open spec fn set_scan(args: Seq<Seq<char>>) -> SetScan
    decreases args.len(),
{
    if args.len() == 0 {
        SetScan { plain: Seq::empty(), ttl: None, pending: false, error: None }
    } else {
        set_scan_step(set_scan(args.drop_last()), args.last())
    }
}

/// The key/value tokens and the lifetime of a SET command, or why it is refused.
pub open spec fn parse_set(args: Seq<Seq<char>>) -> Result<(Seq<Seq<char>>, Option<u64>), SetError> {
    let st = set_scan(args);
    match st.error {
        Some(e) => Err(e),
        None => if st.pending {
            Err(SetError::NoExpireValue)
        } else if st.plain.len() % 2 == 1 {
            Err(SetError::OddArguments)
        } else {
            Ok((st.plain, st.ttl))
        },
    }
}

/// The store after writing each consecutive key/value pair of `plain`, left to right,
/// all with the expiration `expires_at`.
pub open spec fn apply_pairs(m: Map<Seq<char>, Stored>, plain: Seq<Seq<char>>, expires_at: u64) -> Map<
    Seq<char>,
    Stored,
>
    decreases plain.len(),
{
    if plain.len() < 2 {
        m
    } else {
        apply_pairs(m, plain.subrange(0, plain.len() - 2), expires_at).insert(
            plain[plain.len() - 2],
            (plain[plain.len() - 1], expires_at),
        )
    }
}

pub open spec fn ok_text() -> Seq<char> {
    "+OK"@
}

pub open spec fn unsupported_text() -> Seq<char> {
    "-ERR Unsupported command or syntax error."@
}

pub open spec fn set_error_text(e: SetError) -> Seq<char> {
    match e {
        SetError::NoExpireValue => "-ERR EXPIRE specified without a value"@,
        SetError::BadExpireValue => "-ERR Invalid EXPIRE value"@,
        SetError::OddArguments => "-ERR SET command requires an even number of arguments."@,
    }
}

/// `v` with a backslash before each double quote.
pub open spec fn escape_quotes(v: Seq<char>) -> Seq<char>
    decreases v.len(),
{
    if v.len() == 0 {
        Seq::empty()
    } else if v.last() == '"' {
        escape_quotes(v.drop_last()) + seq!['\\', '"']
    } else {
        escape_quotes(v.drop_last()).push(v.last())
    }
}

/// How one result of GET is written: a quoted, escaped value, or the null marker.
pub open spec fn item_text(o: Option<Seq<char>>) -> Seq<char> {
    match o {
        Some(v) => seq!['"'] + escape_quotes(v) + seq!['"'],
        None => "(nil)"@,
    }
}

pub open spec fn join_items(rs: Seq<Option<Seq<char>>>) -> Seq<char>
    decreases rs.len(),
{
    if rs.len() == 0 {
        Seq::empty()
    } else if rs.len() == 1 {
        item_text(rs[0])
    } else {
        join_items(rs.drop_last()) + ", "@ + item_text(rs.last())
    }
}

/// The response to GET: the results, comma-separated, in brackets.
pub open spec fn render_get(rs: Seq<Option<Seq<char>>>) -> Seq<char> {
    seq!['['] + join_items(rs) + seq![']']
}

/// What each key of a GET at `now` reads.
pub open spec fn lookups(m: Map<Seq<char>, Stored>, keys: Seq<Seq<char>>, now: u64) -> Seq<
    Option<Seq<char>>,
> {
    keys.map_values(|k: Seq<char>| lookup(m, k, now))
}

/// The store after the reads of a GET at `now`, one key after another.
pub open spec fn get_effect(m: Map<Seq<char>, Stored>, keys: Seq<Seq<char>>, now: u64) -> Map<
    Seq<char>,
    Stored,
>
    decreases keys.len(),
{
    if keys.len() == 0 {
        m
    } else {
        evict(get_effect(m, keys.drop_last(), now), keys.last(), now)
    }
}

/// The response to a SET and the store after it.
pub open spec fn set_result(args: Seq<Seq<char>>, m: Map<Seq<char>, Stored>, now: u64) -> (
    Seq<char>,
    Map<Seq<char>, Stored>,
) {
    match parse_set(args) {
        Err(e) => (set_error_text(e), m),
        Ok((plain, ttl)) => (ok_text(), apply_pairs(m, plain, deadline(now, ttl))),
    }
}

/// The response to a tokenized command line run at `now` on a store `m`, and the store
/// after it.
pub open spec fn command_result(tokens: Seq<Seq<char>>, m: Map<Seq<char>, Stored>, now: u64) -> (
    Seq<char>,
    Map<Seq<char>, Stored>,
) {
    if tokens.len() == 0 {
        (unsupported_text(), m)
    } else {
        let args = tokens.drop_first();
        if tokens[0] == "SET"@ {
            set_result(args, m, now)
        } else if tokens[0] == "GET"@ {
            (render_get(lookups(m, args, now)), get_effect(m, args, now))
        } else if tokens[0] == "DEL"@ {
            (ok_text(), without_keys(m, args))
        } else {
            (unsupported_text(), m)
        }
    }
}

/// Reads on other keys, and evictions of expired entries, leave what a read returns
/// unchanged.
pub proof fn lemma_get_effect_lookup(
    m: Map<Seq<char>, Stored>,
    keys: Seq<Seq<char>>,
    k: Seq<char>,
    now: u64,
)
    ensures
        lookup(get_effect(m, keys, now), k, now) == lookup(m, k, now),
    decreases keys.len(),
{
    if keys.len() > 0 {
        lemma_get_effect_lookup(m, keys.drop_last(), k, now);
    }
}

/// Runs a tokenized command line at instant `now` on `db` and returns the response.
pub fn process_tokens_at(tokens: &Vec<String>, db: &mut Database, now: u64) -> (r: String)
    requires
        old(db).wf(),
    ensures
        final(db).wf(),
        final(db).clock() == old(db).clock(),
        (r@, final(db)@) == command_result(strings_view(tokens@), old(db)@, now),
{
    let ghost toks = strings_view(tokens@);
    if tokens.len() == 0 {
        return String::from_str("-ERR Unsupported command or syntax error.");
    }
    let args = vstd::slice::slice_subrange(tokens.as_slice(), 1, tokens.len());
    proof {
        assert(strings_view(args@) =~= toks.drop_first());
        assert(toks[0] == tokens@[0]@);
    }
    if tokens[0] == String::from_str("SET") {
        process_set_command(args, db, now)
    } else if tokens[0] == String::from_str("GET") {
        process_get_command(args, db, now)
    } else if tokens[0] == String::from_str("DEL") {
        process_del_command(args, db)
    } else {
        String::from_str("-ERR Unsupported command or syntax error.")
    }
}

/// Runs a command line at instant `now` on `db` and returns the response.
pub fn process_command_at(line: &str, db: &mut Database, now: u64) -> (r: String)
    requires
        old(db).wf(),
    ensures
        final(db).wf(),
        final(db).clock() == old(db).clock(),
        (r@, final(db)@) == command_result(tokens_of(line@), old(db)@, now),
{
    let tokens = tokenize_string(line);
    process_tokens_at(&tokens, db, now)
}

/// Runs a command line on `db` now and returns the response.
pub fn process_command(line: &str, db: &mut Database) -> (r: String)
    requires
        old(db).wf(),
    ensures
        final(db).wf(),
        exists|t: u64|
            t >= old(db).clock() && final(db).clock() == t && (r@, final(db)@)
                == #[trigger] command_result(tokens_of(line@), old(db)@, t),
{
    let now = db.now();
    process_command_at(line, db, now)
}

/// Parses the arguments of SET, then writes every pair with the one lifetime;
/// on a malformed command nothing is written.
fn process_set_command(args: &[String], db: &mut Database, now: u64) -> (r: String)
    requires
        old(db).wf(),
    ensures
        final(db).wf(),
        final(db).clock() == old(db).clock(),
        (r@, final(db)@) == set_result(strings_view(args@), old(db)@, now),
{
    let ghost a = strings_view(args@);
    let expire = String::from_str("EXPIRE");
    let mut plain: Vec<String> = Vec::new();
    let mut ttl: Option<u64> = None;
    let mut pending = false;
    let mut i: usize = 0;
    let ghost m0 = db@;
    proof {
        assert(a.take(0) =~= Seq::<Seq<char>>::empty());
        assert(strings_view(plain@) =~= Seq::<Seq<char>>::empty());
    }
    while i < args.len()
        invariant
            i <= args@.len(),
            db.wf(),
            db.clock() == old(db).clock(),
            db@ == m0,
            a == strings_view(args@),
            expire@ == expire_word(),
            set_scan(a.take(i as int)) == (SetScan {
                plain: strings_view(plain@),
                ttl,
                pending,
                error: None,
            }),
        decreases args@.len() - i,
    {
        proof {
            assert(a.take(i + 1).drop_last() =~= a.take(i as int));
            assert(a.take(i + 1).last() == args@[i as int]@);
        }
        if pending {
            match parse_u64(&args[i]) {
                Some(n) => {
                    ttl = Some(n);
                    pending = false;
                },
                None => {
                    proof {
                        lemma_set_scan_error_stays(a, i as int + 1);
                    }
                    return String::from_str("-ERR Invalid EXPIRE value");
                },
            }
        } else if args[i] == expire {
            pending = true;
        } else {
            let ghost before = plain@;
            plain.push(args[i].clone());
            proof {
                assert(strings_view(plain@) =~= strings_view(before).push(args@[i as int]@));
            }
        }
        i = i + 1;
    }
    proof {
        assert(a.take(args@.len() as int) =~= a);
    }
    if pending {
        return String::from_str("-ERR EXPIRE specified without a value");
    }
    if plain.len() % 2 != 0 {
        return String::from_str("-ERR SET command requires an even number of arguments.");
    }
    let ghost m = db@;
    let ghost p = strings_view(plain@);
    let ghost expires_at = deadline(now, ttl);
    let mut j: usize = 0;
    proof {
        assert(p.take(0) =~= Seq::<Seq<char>>::empty());
    }
    while j < plain.len()
        invariant
            db.wf(),
            db.clock() == old(db).clock(),
            j <= plain@.len(),
            j % 2 == 0,
            plain@.len() % 2 == 0,
            p == strings_view(plain@),
            expires_at == deadline(now, ttl),
            db@ == apply_pairs(m, p.take(j as int), expires_at),
        decreases plain@.len() - j,
    {
        proof {
            assert(p.take(j + 2).subrange(0, j as int) =~= p.take(j as int));
            assert(p.take(j + 2)[j as int] == plain@[j as int]@);
            assert(p.take(j + 2)[j + 1] == plain@[j + 1]@);
        }
        let key = plain[j].clone();
        let value = plain[j + 1].clone();
        db.set_at(key, value, ttl, now);
        proof {
            let q = p.take(j + 2);
            assert(q.len() == j + 2);
            assert(apply_pairs(m, q, expires_at) == apply_pairs(m, q.subrange(0, j as int), expires_at).insert(
                q[j as int],
                (q[j + 1], expires_at),
            ));
        }
        j = j + 2;
    }
    proof {
        assert(p.take(plain@.len() as int) =~= p);
    }
    String::from_str("+OK")
}

/// Once the scan has met an error, later tokens leave it unchanged.
proof fn lemma_set_scan_error_stays(a: Seq<Seq<char>>, n: int)
    requires
        0 <= n <= a.len(),
        set_scan(a.take(n)).error is Some,
    ensures
        set_scan(a).error == set_scan(a.take(n)).error,
    decreases a.len() - n,
{
    if n < a.len() {
        assert(a.take(n + 1).drop_last() =~= a.take(n));
        lemma_set_scan_error_stays(a, n + 1);
    } else {
        assert(a.take(n) =~= a);
    }
}

/// Appends `v` to `out` with a backslash before each double quote.
fn push_escaped(out: &mut String, v: &str)
    ensures
        final(out)@ == old(out)@ + escape_quotes(v@),
{
    let ghost start = out@;
    let mut chars = v.chars();
    let ghost mut i: int = 0;
    proof {
        assert(v@.take(0) =~= Seq::<char>::empty());
        assert(out@ =~= start + escape_quotes(v@.take(0)));
    }
    loop
        invariant
            0 <= i <= v@.len(),
            IteratorSpec::remaining(&chars) == v@.skip(i),
            IteratorSpec::obeys_prophetic_iter_laws(&chars),
            out@ == start + escape_quotes(v@.take(i)),
        ensures
            out@ == start + escape_quotes(v@),
        decreases v@.len() - i,
    {
        match chars.next() {
            None => {
                proof {
                    assert(v@.skip(i).len() == 0);
                    assert(v@.take(i) =~= v@);
                }
                break;
            },
            Some(c) => {
                proof {
                    assert(v@.skip(i)[0] == v@[i]);
                    assert(v@.take(i + 1).drop_last() =~= v@.take(i));
                    assert(v@.take(i + 1).last() == v@[i]);
                }
                if c == '"' {
                    push_char(out, '\\');
                    push_char(out, '"');
                    proof {
                        assert(out@ =~= start + escape_quotes(v@.take(i + 1)));
                    }
                } else {
                    push_char(out, c);
                    proof {
                        assert(out@ =~= start + escape_quotes(v@.take(i + 1)));
                    }
                }
                proof {
                    assert(v@.skip(i).drop_first() =~= v@.skip(i + 1));
                    i = i + 1;
                }
            },
        }
    }
}

/// Reads each key in order and renders the results.
fn process_get_command(args: &[String], db: &mut Database, now: u64) -> (r: String)
    requires
        old(db).wf(),
    ensures
        final(db).wf(),
        final(db).clock() == old(db).clock(),
        r@ == render_get(lookups(old(db)@, strings_view(args@), now)),
        final(db)@ == get_effect(old(db)@, strings_view(args@), now),
{
    let ghost m = db@;
    let ghost a = strings_view(args@);
    let mut out = String::new();
    push_char(&mut out, '[');
    let mut j: usize = 0;
    proof {
        assert(a.take(0) =~= Seq::<Seq<char>>::empty());
        assert(lookups(m, a.take(0), now) =~= Seq::<Option<Seq<char>>>::empty());
        assert(out@ =~= seq!['['] + join_items(lookups(m, a.take(0), now)));
    }
    while j < args.len()
        invariant
            db.wf(),
            db.clock() == old(db).clock(),
            j <= args@.len(),
            a == strings_view(args@),
            out@ == seq!['['] + join_items(lookups(m, a.take(j as int), now)),
            db@ == get_effect(m, a.take(j as int), now),
        decreases args@.len() - j,
    {
        let ghost prev = lookups(m, a.take(j as int), now);
        let ghost next = lookups(m, a.take(j + 1), now);
        let ghost k = args@[j as int]@;
        proof {
            assert(a.take(j + 1).drop_last() =~= a.take(j as int));
            assert(next =~= prev.push(lookup(m, k, now)));
            assert(next.drop_last() =~= prev);
            lemma_get_effect_lookup(m, a.take(j as int), k, now);
        }
        if j > 0 {
            out.append(", ");
        }
        let ghost before = out@;
        let found = db.get_at(args[j].as_str(), now);
        match found {
            Some(v) => {
                push_char(&mut out, '"');
                push_escaped(&mut out, v.as_str());
                push_char(&mut out, '"');
                proof {
                    assert(out@ =~= before + item_text(lookup(m, k, now)));
                }
            },
            None => {
                out.append("(nil)");
            },
        }
        proof {
            assert(out@ =~= seq!['['] + join_items(next));
        }
        j = j + 1;
    }
    push_char(&mut out, ']');
    proof {
        assert(a.take(args@.len() as int) =~= a);
    }
    out
}

/// Removes every listed key.
fn process_del_command(args: &[String], db: &mut Database) -> (r: String)
    requires
        old(db).wf(),
    ensures
        final(db).wf(),
        final(db).clock() == old(db).clock(),
        r@ == ok_text(),
        final(db)@ == without_keys(old(db)@, strings_view(args@)),
{
    db.del(args);
    String::from_str("+OK")
}

} // verus!
