//! The text inside a string literal as it is written in source: plain
//! (`"..."`), byte (`b"..."`) or raw (`r"..."`, `r#"..."#`, ...). Escapes are
//! left as they stand.
use vstd::prelude::*;

verus! {

/// `s` without the pairs of `#` that enclose it.
pub open spec fn strip_hashes(s: Seq<char>) -> Seq<char>
    decreases s.len(),
{
    if s.len() >= 2 && s[0] == '#' && s.last() == '#' {
        strip_hashes(s.subrange(1, s.len() - 1))
    } else {
        s
    }
}

/// The text between the quotes of the literal `lit`, if it is one.
pub open spec fn literal_body(lit: Seq<char>) -> Option<Seq<char>> {
    let s = if lit.len() > 0 && lit[0] == 'b' {
        lit.drop_first()
    } else if lit.len() > 0 && lit[0] == 'r' {
        strip_hashes(lit.drop_first())
    } else {
        lit
    };
    if s.len() >= 2 && s[0] == '"' && s.last() == '"' {
        Some(s.subrange(1, s.len() - 1))
    } else {
        None
    }
}

/// The text between the quotes of the literal `lit`, or none where `lit` is no
/// string literal.
pub fn parse_string_literal(lit: &str) -> (r: Option<&str>)
    ensures
        match r {
            Some(body) => literal_body(lit@) == Some(body@),
            None => literal_body(lit@) is None,
        },
{
    let n = lit.unicode_len();
    // the literal's remaining text is lit[from..to]
    let mut from: usize = 0;
    let mut to: usize = n;
    if n > 0 && lit.get_char(0) == 'b' {
        from = 1;
    } else if n > 0 && lit.get_char(0) == 'r' {
        from = 1;
        while to - from >= 2 && lit.get_char(from) == '#' && lit.get_char(to - 1) == '#'
            invariant
                1 <= from <= to <= n == lit@.len(),
                lit@.len() > 0 && lit@[0] == 'r',
                strip_hashes(lit@.drop_first()) == strip_hashes(
                    lit@.subrange(from as int, to as int),
                ),
            decreases to - from,
        {
            let ghost s = lit@.subrange(from as int, to as int);
            assert(s.subrange(1, s.len() - 1) == lit@.subrange(from + 1, to - 1));
            from = from + 1;
            to = to - 1;
        }
        assert(lit@.subrange(1, n as int) == lit@.drop_first());
    }
    let ghost s = lit@.subrange(from as int, to as int);
    if to - from >= 2 && lit.get_char(from) == '"' && lit.get_char(to - 1) == '"' {
        let body = lit.substring_char(from + 1, to - 1);
        assert(s.subrange(1, s.len() - 1) == body@);
        Some(body)
    } else {
        None
    }
}

} // verus!
