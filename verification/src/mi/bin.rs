//! Exact byte-sequence search and splice on byte vectors.
//!
//! This is the structural half of the manifest codec: the manifest blob sits
//! between two fixed byte markers inside an otherwise opaque document, and
//! these operations find the first marker pair and splice a replacement in
//! between.  Everything here is a pure transform on byte sequences; when a
//! marker is missing the document comes back unchanged.

use vstd::prelude::*;

verus! {

/// `pat` occurs in `s` at position `i`.
pub open spec fn is_match_at(s: Seq<u8>, pat: Seq<u8>, i: int) -> bool {
    0 <= i && i + pat.len() <= s.len() && s.subrange(i, i + pat.len()) == pat
}

/// The position of the first occurrence of `pat` in `s` at or after `start`,
/// if there is one.
pub open spec fn find_from(s: Seq<u8>, pat: Seq<u8>, start: int) -> Option<int>
    decreases s.len() - start,
{
    if start < 0 || start + pat.len() > s.len() {
        None
    } else if pat.len() == 0 || is_match_at(s, pat, start) {
        Some(start)
    } else {
        find_from(s, pat, start + 1)
    }
}

/// `s` with every non-overlapping occurrence of `pat`, scanned left to
/// right, replaced by `rep`.
pub open spec fn spec_replace_all(s: Seq<u8>, pat: Seq<u8>, rep: Seq<u8>) -> Seq<u8>
    decreases s.len(),
{
    if pat.len() == 0 || s.len() == 0 {
        s
    } else if pat.len() <= s.len() && s.take(pat.len() as int) == pat {
        rep + spec_replace_all(s.skip(pat.len() as int), pat, rep)
    } else {
        seq![s[0]] + spec_replace_all(s.drop_first(), pat, rep)
    }
}

/// `s` with the part between the first occurrence of `ps` and the next
/// occurrence of `pe` replaced by `rep`; the markers themselves stay.  When
/// either marker is empty or missing, `s` unchanged.
pub open spec fn spec_replace_between(s: Seq<u8>, ps: Seq<u8>, pe: Seq<u8>, rep: Seq<u8>) -> Seq<
    u8,
> {
    if ps.len() == 0 || pe.len() == 0 {
        s
    } else {
        match find_from(s, ps, 0) {
            None => s,
            Some(i) => match find_from(s, pe, i + ps.len()) {
                None => s,
                Some(j) => s.take(i + ps.len()) + rep + s.skip(j),
            },
        }
    }
}

/// The part of `s` between the first occurrence of `ps` and the next
/// occurrence of `pe`, markers excluded; `s` itself when either marker is
/// empty or missing.
pub open spec fn spec_between(s: Seq<u8>, ps: Seq<u8>, pe: Seq<u8>) -> Seq<u8> {
    if ps.len() == 0 || pe.len() == 0 {
        s
    } else {
        match find_from(s, ps, 0) {
            None => s,
            Some(i) => match find_from(s, pe, i + ps.len()) {
                None => s,
                Some(j) => s.subrange(i + ps.len(), j),
            },
        }
    }
}

/// Byte-level search and splice, as the manifest codec needs it.
pub trait Replace: Sized + View<V = Seq<u8>> {
    /// Returns a new vector with every occurrence of the pattern replaced.
    fn replace(&self, pattern: &[u8], replacement: &[u8]) -> (r: Self)
        ensures
            r@ == spec_replace_all(self@, pattern@, replacement@),
    ;

    /// Returns a new vector with the given replacement instead of the part
    /// surrounded by the two patterns (leaves the patterns in).
    fn replace_between(&self, pattern_start: &[u8], pattern_end: &[u8], replacement: &[u8]) -> (r:
        Self)
        ensures
            r@ == spec_replace_between(self@, pattern_start@, pattern_end@, replacement@),
    ;

    /// Finds the first index of the pattern at or after the given start index.
    fn index_of(&self, pattern: &[u8], start: usize) -> (r: Result<usize, usize>)
        requires
            pattern@.len() > 0,
        ensures
            match r {
                Ok(i) => find_from(self@, pattern@, start as int) == Some(i as int),
                Err(e) => e == 0 && find_from(self@, pattern@, start as int) is None,
            },
    ;

    /// Returns a new vector containing what is between the given patterns.
    fn between(&self, pattern_start: &[u8], pattern_end: &[u8]) -> (r: Self)
        ensures
            r@ == spec_between(self@, pattern_start@, pattern_end@),
    ;
}

/// Pushes `src[from..to]` onto `dst`.
fn push_range(dst: &mut Vec<u8>, src: &[u8], from: usize, to: usize)
    requires
        from <= to <= src@.len(),
    ensures
        final(dst)@ == old(dst)@ + src@.subrange(from as int, to as int),
{
    let mut i = from;
    while i < to
        invariant
            from <= i <= to <= src@.len(),
            dst@ == old(dst)@ + src@.subrange(from as int, i as int),
        decreases to - i,
    {
        dst.push(src[i]);
        proof {
            assert(src@.subrange(from as int, i + 1) =~= src@.subrange(from as int, i as int).push(
                src@[i as int],
            ));
        }
        i = i + 1;
    }
}

/// If `pat` does not occur at `i`, the first occurrence from `i` is the
/// first occurrence from `i + 1`.
proof fn lemma_find_step(s: Seq<u8>, pat: Seq<u8>, i: int)
    requires
        0 <= i,
        pat.len() > 0,
        !is_match_at(s, pat, i),
    ensures
        find_from(s, pat, i) == find_from(s, pat, i + 1),
{
}

/// A found position is a real occurrence, at or after where the search began.
pub proof fn lemma_find_some(s: Seq<u8>, pat: Seq<u8>, start: int, i: int)
    requires
        find_from(s, pat, start) == Some(i),
    ensures
        start <= i,
        is_match_at(s, pat, i),
    decreases s.len() - start,
{
    if start < 0 || start + pat.len() > s.len() {
        // find_from is None here, contradicting the requires.
    } else if pat.len() == 0 {
        assert(s.subrange(start, start + pat.len() as int) =~= pat);
    } else if is_match_at(s, pat, start) {
    } else {
        lemma_find_some(s, pat, start + 1, i);
    }
}

/// Compares `s[i..i+m]` with `pat`; reports whether they are equal.
fn match_at(s: &Vec<u8>, pat: &[u8], i: usize) -> (r: bool)
    requires
        i + pat@.len() <= s@.len(),
    ensures
        r == is_match_at(s@, pat@, i as int),
{
    let n = s.len();
    let m = pat.len();
    let mut k: usize = 0;
    let mut matching = true;
    while matching && k < m
        invariant
            n == s@.len(),
            i + m <= n,
            m == pat@.len(),
            k <= m,
            matching ==> forall|t: int| 0 <= t < k ==> s@[i + t] == pat@[t],
            !matching ==> exists|t: int| 0 <= t < m && s@[i + t] != pat@[t],
        decreases m - k,
    {
        if s[i + k] != pat[k] {
            proof {
                assert(s@[i + k] != pat@[k as int]);
            }
            matching = false;
            k = m;
        } else {
            k = k + 1;
        }
    }
    proof {
        if matching {
            assert(s@.subrange(i as int, i + m) =~= pat@);
        } else {
            let t = choose|t: int| 0 <= t < m && s@[i + t] != pat@[t];
            if is_match_at(s@, pat@, i as int) {
                assert(s@.subrange(i as int, i + m)[t] == s@[i + t]);
                assert(false);
            }
        }
    }
    matching
}

impl Replace for Vec<u8> {
    fn replace(&self, pattern: &[u8], replacement: &[u8]) -> (r: Vec<u8>) {
        let n = self.len();
        let m = pattern.len();
        let mut new: Vec<u8> = Vec::new();

        if m == 0 {
            push_range(&mut new, self.as_slice(), 0, n);
            proof {
                assert(new@ =~= self@);
            }
            return new;
        }

        proof {
            assert(self@.skip(0) =~= self@);
            assert(Seq::<u8>::empty() + spec_replace_all(self@, pattern@, replacement@)
                =~= spec_replace_all(self@, pattern@, replacement@));
        }
        let mut i: usize = 0;
        while i < n
            invariant
                i <= n,
                n == self@.len(),
                m == pattern@.len(),
                m > 0,
                spec_replace_all(self@, pattern@, replacement@) == new@ + spec_replace_all(
                    self@.skip(i as int),
                    pattern@,
                    replacement@,
                ),
            decreases n - i,
        {
            let ghost rest = self@.skip(i as int);
            let matching = if m <= n - i {
                match_at(self, pattern, i)
            } else {
                false
            };
            proof {
                if matching {
                    assert(forall|t: int|
                        0 <= t < m ==> rest.take(m as int)[t] == #[trigger] self@.subrange(
                            i as int,
                            i + m,
                        )[t]);
                    assert(rest.take(m as int) =~= self@.subrange(i as int, i + m));
                } else {
                    if i + m <= n && rest.take(m as int) == pattern@ {
                        assert(forall|t: int|
                            0 <= t < m ==> self@.subrange(i as int, i + m)[t]
                                == #[trigger] rest.take(m as int)[t]);
                        assert(self@.subrange(i as int, i + m) =~= rest.take(m as int));
                        assert(false);
                    }
                }
            }
            if matching {
                push_range(&mut new, replacement, 0, replacement.len());
                proof {
                    assert(replacement@.subrange(0, replacement@.len() as int) =~= replacement@);
                    assert(rest.skip(m as int) =~= self@.skip(i + m));
                }
                i = i + m;
            } else {
                new.push(self[i]);
                proof {
                    assert(rest.len() > 0);
                    assert(rest[0] == self@[i as int]);
                    assert(rest.drop_first() =~= self@.skip(i + 1));
                    assert(seq![rest[0]] + spec_replace_all(
                        self@.skip(i + 1),
                        pattern@,
                        replacement@,
                    ) == spec_replace_all(rest, pattern@, replacement@));
                }
                i = i + 1;
            }
        }
        proof {
            assert(self@.skip(n as int) =~= Seq::<u8>::empty());
        }
        new
    }

    fn replace_between(&self, pattern_start: &[u8], pattern_end: &[u8], replacement: &[u8]) -> (r:
        Vec<u8>) {
        let n = self.len();
        let mut new: Vec<u8> = Vec::new();

        if pattern_start.len() == 0 || pattern_end.len() == 0 {
            push_range(&mut new, self.as_slice(), 0, n);
            proof {
                assert(new@ =~= self@);
            }
            return new;
        }

        let index_start = match self.index_of(pattern_start, 0) {
            Ok(i) => i,
            Err(_) => {
                push_range(&mut new, self.as_slice(), 0, n);
                proof {
                    assert(new@ =~= self@);
                }
                return new;
            },
        };

        proof {
            lemma_find_some(self@, pattern_start@, 0, index_start as int);
        }
        let index_end = match self.index_of(pattern_end, index_start + pattern_start.len()) {
            Ok(i) => i,
            Err(_) => {
                push_range(&mut new, self.as_slice(), 0, n);
                proof {
                    assert(new@ =~= self@);
                }
                return new;
            },
        };

        proof {
            lemma_find_some(
                self@,
                pattern_end@,
                index_start + pattern_start@.len(),
                index_end as int,
            );
        }
        push_range(&mut new, self.as_slice(), 0, index_start + pattern_start.len());
        push_range(&mut new, replacement, 0, replacement.len());
        push_range(&mut new, self.as_slice(), index_end, n);
        proof {
            assert(replacement@.subrange(0, replacement@.len() as int) =~= replacement@);
            assert(self@.subrange(0, index_start + pattern_start@.len()) =~= self@.take(
                index_start + pattern_start@.len(),
            ));
            assert(self@.subrange(index_end as int, n as int) =~= self@.skip(index_end as int));
        }
        new
    }

    fn index_of(&self, pattern: &[u8], start: usize) -> (r: Result<usize, usize>) {
        let n = self.len();
        let m = pattern.len();

        if m > n || start > n - m {
            proof {
                lemma_find_none_when_short(self@, pattern@, start as int);
            }
            return Err(0);
        }

        let mut i: usize = start;
        while i <= n - m
            invariant
                start <= i,
                m > 0,
                m <= n,
                i <= n - m + 1,
                n == self@.len(),
                m == pattern@.len(),
                find_from(self@, pattern@, start as int) == find_from(self@, pattern@, i as int),
            decreases n - i,
        {
            if match_at(self, pattern, i) {
                return Ok(i);
            }
            proof {
                lemma_find_step(self@, pattern@, i as int);
            }
            i = i + 1;
        }
        Err(0)
    }

    fn between(&self, pattern_start: &[u8], pattern_end: &[u8]) -> (r: Vec<u8>) {
        let n = self.len();
        let mut new: Vec<u8> = Vec::new();

        if pattern_start.len() == 0 || pattern_end.len() == 0 {
            push_range(&mut new, self.as_slice(), 0, n);
            proof {
                assert(new@ =~= self@);
            }
            return new;
        }

        let index_start = match self.index_of(pattern_start, 0) {
            Ok(i) => i,
            Err(_) => {
                push_range(&mut new, self.as_slice(), 0, n);
                proof {
                    assert(new@ =~= self@);
                }
                return new;
            },
        };

        proof {
            lemma_find_some(self@, pattern_start@, 0, index_start as int);
        }
        let index_end = match self.index_of(pattern_end, index_start + pattern_start.len()) {
            Ok(i) => i,
            Err(_) => {
                push_range(&mut new, self.as_slice(), 0, n);
                proof {
                    assert(new@ =~= self@);
                }
                return new;
            },
        };

        proof {
            lemma_find_some(
                self@,
                pattern_end@,
                index_start + pattern_start@.len(),
                index_end as int,
            );
        }
        push_range(&mut new, self.as_slice(), index_start + pattern_start.len(), index_end);
        new
    }
}

/// There is no occurrence at or after `start` when fewer than `pat.len()`
/// bytes remain there.
proof fn lemma_find_none_when_short(s: Seq<u8>, pat: Seq<u8>, start: int)
    requires
        start + pat.len() > s.len(),
    ensures
        find_from(s, pat, start) is None,
    decreases s.len() - start,
{
}

} // verus!
