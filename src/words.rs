use vstd::prelude::*;

verus! {

/// ASCII whitespace: space, tab, line feed, form feed, carriage return.
pub open spec fn is_ascii_ws(c: char) -> bool {
    c == ' ' || c == '\t' || c == '\n' || c == '\x0C' || c == '\r'
}

/// The words of `s` after the partial word `cur`: maximal runs of
/// characters that are not ASCII whitespace.
pub open spec fn words_from(s: Seq<char>, cur: Seq<char>) -> Seq<Seq<char>>
    decreases s.len(),
{
    if s.len() == 0 {
        if cur.len() > 0 {
            seq![cur]
        } else {
            seq![]
        }
    } else if is_ascii_ws(s[0]) {
        (if cur.len() > 0 {
            seq![cur]
        } else {
            seq![]
        }) + words_from(s.drop_first(), seq![])
    } else {
        words_from(s.drop_first(), cur.push(s[0]))
    }
}

/// The whitespace-separated words of a text, in order.
pub open spec fn words(s: Seq<char>) -> Seq<Seq<char>> {
    words_from(s, seq![])
}

/// The views of a list of strings.
pub open spec fn texts(v: Seq<String>) -> Seq<Seq<char>> {
    v.map_values(|s: String| s@)
}

/// Splits a text on ASCII whitespace.
pub fn split_words(s: &str) -> (r: Vec<String>)
    ensures
        texts(r@) == words(s@),
{
    let n = s.unicode_len();
    let mut out: Vec<String> = Vec::new();
    let mut start: usize = 0;
    let mut i: usize = 0;
    proof {
        assert(s@.subrange(0, n as int) =~= s@);
        assert(texts(out@) =~= Seq::<Seq<char>>::empty());
        assert(s@.subrange(0, 0) =~= Seq::<char>::empty());
        assert(texts(out@) + words(s@) =~= words(s@));
    }
    while i < n
        invariant
            n == s@.len(),
            start <= i <= n,
            texts(out@) + words_from(s@.subrange(i as int, n as int), s@.subrange(start as int, i as int))
                == words(s@),
        decreases n - i,
    {
        let c = s.get_char(i);
        let ghost rest = s@.subrange(i as int, n as int);
        let ghost cur = s@.subrange(start as int, i as int);
        let ghost prev = texts(out@);
        proof {
            assert(rest[0] == c);
            assert(rest.drop_first() =~= s@.subrange(i + 1, n as int));
        }
        if c == ' ' || c == '\t' || c == '\n' || c == '\x0C' || c == '\r' {
            if start < i {
                let w = s.substring_char(start, i).to_string();
                out.push(w);
                proof {
                    assert(texts(out@) =~= prev.push(cur));
                    assert(prev + (seq![cur] + words_from(rest.drop_first(), seq![]))
                        =~= prev.push(cur) + words_from(rest.drop_first(), seq![]));
                }
            } else {
                proof {
                    assert(cur.len() == 0);
                    assert(Seq::<Seq<char>>::empty() + words_from(rest.drop_first(), seq![])
                        =~= words_from(rest.drop_first(), seq![]));
                }
            }
            proof {
                assert(s@.subrange(i + 1, i + 1) =~= Seq::<char>::empty());
            }
            start = i + 1;
        } else {
            proof {
                assert(s@.subrange(start as int, i + 1) =~= cur.push(c));
            }
        }
        i += 1;
    }
    let ghost prev = texts(out@);
    let ghost cur = s@.subrange(start as int, n as int);
    proof {
        assert(s@.subrange(n as int, n as int) =~= Seq::<char>::empty());
    }
    if start < n {
        let w = s.substring_char(start, n).to_string();
        out.push(w);
        proof {
            assert(texts(out@) =~= prev.push(cur));
            assert(prev + seq![cur] =~= prev.push(cur));
        }
    } else {
        proof {
            assert(prev + Seq::<Seq<char>>::empty() =~= prev);
        }
    }
    out
}

} // verus!
