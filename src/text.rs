use vstd::prelude::*;

verus! {

/// ASCII white space: tab, line feed, vertical tab, form feed, carriage return, space.
pub open spec fn is_space(b: u8) -> bool {
    b == 32 || (9 <= b && b <= 13)
}

/// The words finished so far and the word under way, after reading `s` from the left.
pub open spec fn split_state(s: Seq<u8>) -> (Seq<Seq<u8>>, Seq<u8>)
    decreases s.len(),
{
    if s.len() == 0 {
        (Seq::empty(), Seq::empty())
    } else {
        let prev = split_state(s.drop_last());
        let b = s.last();
        if is_space(b) {
            if prev.1.len() > 0 {
                (prev.0.push(prev.1), Seq::empty())
            } else {
                prev
            }
        } else {
            (prev.0, prev.1.push(b))
        }
    }
}

/// The maximal runs of non-space bytes of `s`, in order.
pub open spec fn words(s: Seq<u8>) -> Seq<Seq<u8>> {
    let st = split_state(s);
    if st.1.len() > 0 {
        st.0.push(st.1)
    } else {
        st.0
    }
}

pub open spec fn is_digit(b: u8) -> bool {
    48 <= b && b <= 57
}

/// The number that the decimal digits `w` write.
pub open spec fn digits_value(w: Seq<u8>) -> nat
    decreases w.len(),
{
    if w.len() == 0 {
        0
    } else {
        digits_value(w.drop_last()) * 10 + (w.last() - 48) as nat
    }
}

/// The digits of a word that may begin with one `+`.
pub open spec fn unsigned_digits(w: Seq<u8>) -> Seq<u8> {
    if w.len() > 0 && w[0] == 43 {
        w.drop_first()
    } else {
        w
    }
}

/// The `usize` that a word writes in decimal, with an optional leading `+`.
pub open spec fn usize_value(w: Seq<u8>) -> Option<usize> {
    let d = unsigned_digits(w);
    if d.len() > 0 && (forall|k: int| 0 <= k < d.len() ==> is_digit(#[trigger] d[k])) && digits_value(d)
        <= usize::MAX {
        Some(digits_value(d) as usize)
    } else {
        None
    }
}

/// Splits `s` at white space.
pub fn split_words(s: &[u8]) -> (r: Vec<Vec<u8>>)
    ensures
        r@.map_values(|w: Vec<u8>| w@) == words(s@),
{
    let mut done: Vec<Vec<u8>> = Vec::new();
    let mut cur: Vec<u8> = Vec::new();
    let mut i: usize = 0;
    while i < s.len()
        invariant
            i <= s@.len(),
            done@.map_values(|w: Vec<u8>| w@) == split_state(s@.subrange(0, i as int)).0,
            cur@ == split_state(s@.subrange(0, i as int)).1,
        decreases s@.len() - i,
    {
        let b = s[i];
        let ghost next = s@.subrange(0, i + 1);
        assert(next.drop_last() =~= s@.subrange(0, i as int));
        assert(next.last() == b);
        if b == 32 || (9 <= b && b <= 13) {
            if cur.len() > 0 {
                let w = cur;
                cur = Vec::new();
                let ghost before = done@.map_values(|w: Vec<u8>| w@);
                done.push(w);
                assert(done@.map_values(|w: Vec<u8>| w@) =~= before.push(w@));
                assert(cur@ =~= Seq::<u8>::empty());
            }
        } else {
            cur.push(b);
        }
        i = i + 1;
    }
    assert(s@.subrange(0, s@.len() as int) =~= s@);
    if cur.len() > 0 {
        let ghost before = done@.map_values(|w: Vec<u8>| w@);
        done.push(cur);
        assert(done@.map_values(|w: Vec<u8>| w@) =~= before.push(split_state(s@).1));
    }
    done
}

proof fn lemma_digits_grow(w: Seq<u8>, j: int)
    requires
        0 <= j <= w.len(),
        forall|k: int| 0 <= k < w.len() ==> is_digit(#[trigger] w[k]),
    ensures
        digits_value(w.subrange(0, j)) <= digits_value(w),
    decreases w.len(),
{
    if j < w.len() {
        let q = w.drop_last();
        assert(q.subrange(0, j) =~= w.subrange(0, j));
        assert forall|k: int| 0 <= k < q.len() implies is_digit(#[trigger] q[k]) by {
            assert(q[k] == w[k]);
        }
        lemma_digits_grow(q, j);
    } else {
        assert(w.subrange(0, j) =~= w);
    }
}

/// Reads a `usize` written in decimal, as `str::parse` does: an optional `+`,
/// then at least one digit, and no more than fits.
pub fn parse_usize(w: &[u8]) -> (r: Option<usize>)
    ensures
        r == usize_value(w@),
{
    let start: usize = if w.len() > 0 && w[0] == 43 {
        1
    } else {
        0
    };
    let ghost d = unsigned_digits(w@);
    assert(d =~= w@.subrange(start as int, w@.len() as int));
    if start >= w.len() {
        return None;
    }
    let mut v: usize = 0;
    let mut i: usize = start;
    while i < w.len()
        invariant
            start <= i <= w@.len(),
            start < w@.len(),
            d == unsigned_digits(w@),
            d =~= w@.subrange(start as int, w@.len() as int),
            forall|k: int| 0 <= k < i - start ==> is_digit(#[trigger] d[k]),
            v == digits_value(d.subrange(0, i - start)),
        decreases w@.len() - i,
    {
        let b = w[i];
        assert(d[i - start] == b);
        if b < 48 || b > 57 {
            assert(!is_digit(d[i - start]));
            return None;
        }
        let x: usize = (b - 48) as usize;
        let ghost next = d.subrange(0, i - start + 1);
        assert(next.drop_last() =~= d.subrange(0, i - start));
        assert(next.last() == b);
        assert(digits_value(next) == v * 10 + x);
        if v > (usize::MAX - x) / 10 {
            proof {
                assert(v * 10 + x > usize::MAX) by (nonlinear_arith)
                    requires
                        v > (usize::MAX - x) / 10,
                        x <= 9,
                ;
                let all_digits = forall|k: int| 0 <= k < d.len() ==> is_digit(#[trigger] d[k]);
                if all_digits {
                    lemma_digits_grow(d, i - start + 1);
                }
            }
            return None;
        }
        assert(v * 10 + x <= usize::MAX) by (nonlinear_arith)
            requires
                v <= (usize::MAX - x) / 10,
                x <= 9,
        ;
        v = v * 10 + x;
        i = i + 1;
    }
    assert(d.subrange(0, d.len() as int) =~= d);
    Some(v)
}

} // verus!
