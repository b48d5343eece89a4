//! Qualified names: `prefix:local`.

use vstd::prelude::*;

verus! {

/// The characters of `s` before its first ':' (all of `s` when it has none).
pub open spec fn before_colon(s: Seq<char>) -> Seq<char>
    decreases s.len(),
{
    if s.len() == 0 {
        s
    } else if s[0] == ':' {
        Seq::empty()
    } else {
        seq![s[0]] + before_colon(s.drop_first())
    }
}

/// The characters of `s` after its first ':' (empty when it has none).
pub open spec fn after_colon(s: Seq<char>) -> Seq<char>
    decreases s.len(),
{
    if s.len() == 0 {
        s
    } else if s[0] == ':' {
        s.drop_first()
    } else {
        after_colon(s.drop_first())
    }
}

/// The prefix of a qualified name: the text before the first ':', if any.
pub open spec fn prefix_part(s: Seq<char>) -> Option<Seq<char>> {
    if s.contains(':') {
        Some(before_colon(s))
    } else {
        None
    }
}

/// The local part of a qualified name: the text between the first ':' and the
/// next one (or the end), or the whole name when it has no ':'.
pub open spec fn local_part(s: Seq<char>) -> Seq<char> {
    if s.contains(':') {
        before_colon(after_colon(s))
    } else {
        s
    }
}

pub proof fn lemma_split_first_colon(s: Seq<char>, a: Seq<char>, b: Seq<char>)
    requires
        s == a + seq![':'] + b,
        !a.contains(':'),
    ensures
        before_colon(s) == a,
        after_colon(s) == b,
    decreases a.len(),
{
    if a.len() == 0 {
        assert(s[0] == ':');
        assert(s.drop_first() =~= b);
        assert(before_colon(s) =~= a);
    } else {
        assert(s[0] == a[0]);
        assert(a[0] != ':') by {
            assert(a.contains(a[0]));
        }
        let a1 = a.drop_first();
        assert(s.drop_first() =~= a1 + seq![':'] + b);
        assert(!a1.contains(':')) by {
            if a1.contains(':') {
                let k = choose|k: int| 0 <= k < a1.len() && a1[k] == ':';
                assert(a[k + 1] == ':');
            }
        }
        lemma_split_first_colon(s.drop_first(), a1, b);
        assert(seq![a[0]] + a1 =~= a);
    }
}

pub proof fn lemma_no_colon(s: Seq<char>)
    requires
        !s.contains(':'),
    ensures
        before_colon(s) == s,
    decreases s.len(),
{
    if s.len() > 0 {
        assert(s[0] != ':') by {
            assert(s.contains(s[0]));
        }
        let s1 = s.drop_first();
        assert(!s1.contains(':')) by {
            if s1.contains(':') {
                let k = choose|k: int| 0 <= k < s1.len() && s1[k] == ':';
                assert(s[k + 1] == ':');
            }
        }
        lemma_no_colon(s1);
        assert(seq![s[0]] + s1 =~= s);
    }
}

/// Relies on `str::split_once`: splits `s` at its first ':' into the text
/// before it and the text after it.
#[verifier::external_body]
pub(crate) fn split_at_colon(s: &str) -> (r: Option<(&str, &str)>)
    ensures
        match r {
            None => !s@.contains(':'),
            Some(p) => s@ == p.0@ + seq![':'] + p.1@ && !p.0@.contains(':'),
        },
{
    s.split_once(':')
}

/// Splits a qualified name into its prefix (when it has one) and its local part.
pub fn format_tag_name(key: &str) -> (r: (Option<&str>, &str))
    ensures
        r.0 is Some <==> prefix_part(key@) is Some,
        r.0 matches Some(p) ==> prefix_part(key@) == Some(p@),
        r.1@ == local_part(key@),
{
    match split_at_colon(key) {
        None => {
            (None, key)
        },
        Some((prefix, rest)) => {
            proof {
                lemma_split_first_colon(key@, prefix@, rest@);
                assert(key@[prefix@.len() as int] == ':');
            }
            match split_at_colon(rest) {
                None => {
                    proof {
                        lemma_no_colon(rest@);
                    }
                    (Some(prefix), rest)
                },
                Some((name, tail)) => {
                    proof {
                        lemma_split_first_colon(rest@, name@, tail@);
                    }
                    (Some(prefix), name)
                },
            }
        },
    }
}

} // verus!
