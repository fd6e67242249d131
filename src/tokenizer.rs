use vstd::prelude::*;
use vstd::std_specs::iter::IteratorSpec;
use crate::strings_view;

verus! {

broadcast use vstd::string::group_string_axioms;

/// The state of the tokenizer after reading a prefix of the line.
pub struct ScanState {
    /// Tokens completed so far, in encounter order.
    pub tokens: Seq<Seq<char>>,
    /// The token being built.
    pub current: Seq<char>,
    /// Whether the scan is inside a double-quoted region.
    pub in_quotes: bool,
    /// Whether the previous character was an escaping backslash.
    pub escaped: bool,
}

pub open spec fn initial_scan() -> ScanState {
    ScanState { tokens: Seq::empty(), current: Seq::empty(), in_quotes: false, escaped: false }
}

/// One character of input applied to the scan state.
pub open spec fn scan_step(st: ScanState, c: char) -> ScanState {
    if st.escaped {
        ScanState { current: st.current.push(c), escaped: false, ..st }
    } else if c == '\\' && st.in_quotes {
        ScanState { escaped: true, ..st }
    } else if c == '"' {
        ScanState { in_quotes: !st.in_quotes, ..st }
    } else if c == ' ' && !st.in_quotes {
        if st.current.len() > 0 {
            ScanState { tokens: st.tokens.push(st.current), current: Seq::empty(), ..st }
        } else {
            st
        }
    } else {
        ScanState { current: st.current.push(c), ..st }
    }
}

/// The scan state after reading all of `s`.
pub open spec fn scan(s: Seq<char>) -> ScanState
    decreases s.len(),
{
    if s.len() == 0 {
        initial_scan()
    } else {
        scan_step(scan(s.drop_last()), s.last())
    }
}

/// The tokens of a line: the completed tokens, then the partial one if it is non-empty.
pub open spec fn tokens_of(s: Seq<char>) -> Seq<Seq<char>> {
    let st = scan(s);
    if st.current.len() > 0 {
        st.tokens.push(st.current)
    } else {
        st.tokens
    }
}

/// Relies on String::push: the character is appended at the end.
#[verifier::external_body]
pub(crate) fn push_char(s: &mut String, c: char)
    ensures
        final(s)@ == old(s)@.push(c),
{
    s.push(c)
}

/// Splits a command line into tokens. Spaces separate tokens outside double quotes;
/// quotes are dropped; inside quotes a backslash makes the next character literal.
/// Never fails: an unterminated quote ends with what was gathered.
pub fn tokenize_string(input: &str) -> (r: Vec<String>)
    ensures
        strings_view(r@) == tokens_of(input@),
{
    let mut tokens: Vec<String> = Vec::new();
    let mut current = String::new();
    let mut in_quotes = false;
    let mut escaped = false;
    let mut chars = input.chars();
    let ghost mut i: int = 0;
    proof {
        assert(input@.take(0) =~= Seq::<char>::empty());
        assert(strings_view(tokens@) =~= Seq::<Seq<char>>::empty());
    }
    loop
        invariant
            0 <= i <= input@.len(),
            IteratorSpec::remaining(&chars) == input@.skip(i),
            IteratorSpec::obeys_prophetic_iter_laws(&chars),
            scan(input@.take(i)) == (ScanState {
                tokens: strings_view(tokens@),
                current: current@,
                in_quotes,
                escaped,
            }),
        ensures
            scan(input@) == (ScanState {
                tokens: strings_view(tokens@),
                current: current@,
                in_quotes,
                escaped,
            }),
        decreases input@.len() - i,
    {
        let next = chars.next();
        match next {
            None => {
                proof {
                    assert(input@.skip(i).len() == 0);
                    assert(input@.take(i) =~= input@);
                }
                break;
            },
            Some(c) => {
                proof {
                    assert(input@.skip(i)[0] == input@[i]);
                    assert(input@.take(i + 1).drop_last() =~= input@.take(i));
                    assert(input@.take(i + 1).last() == input@[i]);
                }
                if escaped {
                    push_char(&mut current, c);
                    escaped = false;
                } else if c == '\\' && in_quotes {
                    escaped = true;
                } else if c == '"' {
                    in_quotes = !in_quotes;
                } else if c == ' ' && !in_quotes {
                    if !current.as_str().is_empty() {
                        let ghost old_tokens = tokens@;
                        tokens.push(current.clone());
                        current = String::new();
                        proof {
                            assert(strings_view(tokens@) =~= strings_view(old_tokens).push(
                                tokens@.last()@,
                            ));
                        }
                    }
                } else {
                    push_char(&mut current, c);
                }
                proof {
                    assert(input@.skip(i).drop_first() =~= input@.skip(i + 1));
                    i = i + 1;
                }
            },
        }
    }
    if !current.as_str().is_empty() {
        let ghost old_tokens = tokens@;
        tokens.push(current);
        proof {
            assert(strings_view(tokens@) =~= strings_view(old_tokens).push(tokens@.last()@));
        }
    }
    tokens
}

} // verus!
