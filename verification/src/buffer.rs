//! The line buffer: an ordered mapping from line number to line text.
//!
//! Keys are unique and iterate in strictly ascending order. Insertion
//! upserts by key; renumbering rebuilds the whole buffer with sequential
//! multiples of ten, rewriting each line's leading number.

use vstd::prelude::*;
use vstd::string::StrSliceExecFns;
use vstd::string::StringExecFns;

use crate::chars::dec_rep;
use crate::chars::is_space;
use crate::chars::lemma_dec_rep_digits;
use crate::chars::lemma_run_len_is;
use crate::chars::not_space_pred;
use crate::chars::run_len;
use crate::chars::scan_not_space;
use crate::chars::usize_to_string;

verus! {

/// Keys strictly ascend along the sequence.
pub open spec fn sorted_keys(s: Seq<(nat, Seq<char>)>) -> bool {
    forall|i: int, j: int| 0 <= i < j < s.len() ==> s[i].0 < s[j].0
}

/// Some entry of `s` carries the key `k`.
pub open spec fn has_key(s: Seq<(nat, Seq<char>)>, k: nat) -> bool {
    exists|m: int| 0 <= m < s.len() && s[m].0 == k
}

/// Upsert by key into a key-ordered sequence: replaces the entry with key
/// `k` if one exists, otherwise places `(k, v)` before the first larger key.
pub open spec fn seq_upsert(s: Seq<(nat, Seq<char>)>, k: nat, v: Seq<char>) -> Seq<
    (nat, Seq<char>),
>
    decreases s.len(),
{
    if s.len() == 0 {
        seq![(k, v)]
    } else if s[0].0 < k {
        seq![s[0]] + seq_upsert(s.drop_first(), k, v)
    } else if s[0].0 == k {
        seq![(k, v)] + s.drop_first()
    } else {
        seq![(k, v)] + s
    }
}

/// However lines are inserted, in whatever order, the buffer's iteration
/// order stays strictly ascending by key: upserting into a key-ordered
/// sequence yields a key-ordered sequence, and introduces no key beyond
/// `k` and those already present.
pub proof fn lemma_upsert_sorted(s: Seq<(nat, Seq<char>)>, k: nat, v: Seq<char>)
    requires
        sorted_keys(s),
    ensures
        sorted_keys(seq_upsert(s, k, v)),
        forall|j: int|
            0 <= j < seq_upsert(s, k, v).len() ==> (#[trigger] seq_upsert(s, k, v)[j].0 == k
                || has_key(s, seq_upsert(s, k, v)[j].0)),
    decreases s.len(),
{
    let r = seq_upsert(s, k, v);
    if s.len() == 0 {
    } else if s[0].0 < k {
        let t = s.drop_first();
        assert forall|i: int, j: int| 0 <= i < j < t.len() implies t[i].0 < t[j].0 by {
            assert(t[i] == s[i + 1]);
            assert(t[j] == s[j + 1]);
        }
        lemma_upsert_sorted(t, k, v);
        let rt = seq_upsert(t, k, v);
        assert forall|i: int, j: int| 0 <= i < j < r.len() implies r[i].0 < r[j].0 by {
            if i == 0 {
                assert(r[j] == rt[j - 1]);
                if rt[j - 1].0 == k {
                } else {
                    let m = choose|m: int| 0 <= m < t.len() && t[m].0 == rt[j - 1].0;
                    assert(t[m] == s[m + 1]);
                    assert(s[0].0 < s[m + 1].0);
                }
            } else {
                assert(r[i] == rt[i - 1]);
                assert(r[j] == rt[j - 1]);
            }
        }
        assert forall|j: int| 0 <= j < r.len() implies (#[trigger] r[j].0 == k || has_key(
            s,
            r[j].0,
        )) by {
            if j == 0 {
                assert(r[0] == s[0]);
                assert(s[0].0 == s[0].0);
            } else {
                assert(r[j] == rt[j - 1]);
                if rt[j - 1].0 == k {
                } else {
                    let m = choose|m: int| 0 <= m < t.len() && t[m].0 == rt[j - 1].0;
                    assert(s[m + 1].0 == r[j].0);
                }
            }
        }
    } else if s[0].0 == k {
        assert forall|i: int, j: int| 0 <= i < j < r.len() implies r[i].0 < r[j].0 by {
            if i == 0 {
                assert(r[j] == s.drop_first()[j - 1]);
                assert(s.drop_first()[j - 1] == s[j]);
                assert(s[0].0 < s[j].0);
            } else {
                assert(r[i] == s[i]);
                assert(r[j] == s[j]);
            }
        }
        assert forall|j: int| 0 <= j < r.len() implies (#[trigger] r[j].0 == k || has_key(
            s,
            r[j].0,
        )) by {
            if j > 0 {
                assert(r[j] == s[j]);
            }
        }
    } else {
        assert forall|i: int, j: int| 0 <= i < j < r.len() implies r[i].0 < r[j].0 by {
            if i == 0 {
                assert(r[j] == s[j - 1]);
                if j - 1 > 0 {
                    assert(s[0].0 < s[j - 1].0);
                }
            } else {
                assert(r[i] == s[i - 1]);
                assert(r[j] == s[j - 1]);
            }
        }
        assert forall|j: int| 0 <= j < r.len() implies (#[trigger] r[j].0 == k || has_key(
            s,
            r[j].0,
        )) by {
            if j > 0 {
                assert(r[j] == s[j - 1]);
            }
        }
    }
}

/// Where the upsert lands, positionally: `i` is the number of keys below
/// `k`. An existing key is overwritten in place; a new key is spliced in.
pub proof fn lemma_upsert_at(s: Seq<(nat, Seq<char>)>, k: nat, v: Seq<char>, i: int)
    requires
        sorted_keys(s),
        0 <= i <= s.len(),
        forall|m: int| 0 <= m < i ==> s[m].0 < k,
        i < s.len() ==> s[i].0 >= k,
    ensures
        i < s.len() && s[i].0 == k ==> seq_upsert(s, k, v) == s.update(i, (k, v)),
        !(i < s.len() && s[i].0 == k) ==> seq_upsert(s, k, v) == s.take(i) + seq![(k, v)]
            + s.skip(i),
    decreases s.len(),
{
    if s.len() == 0 {
        assert(seq_upsert(s, k, v) =~= s.take(0) + seq![(k, v)] + s.skip(0));
    } else if i == 0 {
        if s[0].0 == k {
            assert(seq_upsert(s, k, v) =~= s.update(0, (k, v)));
        } else {
            assert(s[0].0 > k);
            assert(seq_upsert(s, k, v) =~= s.take(0) + seq![(k, v)] + s.skip(0));
        }
    } else {
        assert(s[0].0 < k);
        let t = s.drop_first();
        assert forall|a: int, b: int| 0 <= a < b < t.len() implies t[a].0 < t[b].0 by {
            assert(t[a] == s[a + 1]);
            assert(t[b] == s[b + 1]);
        }
        assert forall|m: int| 0 <= m < i - 1 implies t[m].0 < k by {
            assert(t[m] == s[m + 1]);
        }
        if i - 1 < t.len() {
            assert(t[i - 1] == s[i]);
        }
        lemma_upsert_at(t, k, v, i - 1);
        if i < s.len() && s[i].0 == k {
            assert(seq_upsert(s, k, v) == seq![s[0]] + seq_upsert(t, k, v));
            assert(seq![s[0]] + t.update(i - 1, (k, v)) =~= s.update(i, (k, v)));
        } else {
            assert(seq![s[0]] + (t.take(i - 1) + seq![(k, v)] + t.skip(i - 1)) =~= s.take(i)
                + seq![(k, v)] + s.skip(i));
        }
    }
}

/// A renumbered line: the new key's decimal text, then everything from the
/// first whitespace character on (or nothing, for a line with none).
pub open spec fn renum_text(t: Seq<char>, k: nat) -> Seq<char> {
    dec_rep(k) + t.skip(run_len(t, not_space_pred()) as int)
}

/// The whole buffer renumbered: entry `i` gets key `10 * (i + 1)` and its
/// line text rewritten to lead with that key.
pub open spec fn spec_renumber(s: Seq<(nat, Seq<char>)>) -> Seq<(nat, Seq<char>)> {
    Seq::new(s.len(), |i: int| ((10 * (i + 1)) as nat, renum_text(s[i].1, (10 * (i + 1)) as nat)))
}

/// The buffer's lines joined by single newlines, in key order, with no
/// leading or trailing newline.
pub open spec fn joined(s: Seq<(nat, Seq<char>)>) -> Seq<char>
    decreases s.len(),
{
    if s.len() == 0 {
        Seq::empty()
    } else if s.len() == 1 {
        s[0].1
    } else {
        joined(s.drop_last()) + seq!['\n'] + s.last().1
    }
}

/// `t` begins with the decimal text of `k`, followed by whitespace or
/// nothing at all.
pub open spec fn line_well_numbered(t: Seq<char>, k: nat) -> bool {
    &&& dec_rep(k).is_prefix_of(t)
    &&& (t.len() == dec_rep(k).len() || is_space(t[dec_rep(k).len() as int]))
}

/// The buffer is already numbered 10, 20, 30, ... and each line leads with
/// its own key's text.
pub open spec fn sequentially_numbered(s: Seq<(nat, Seq<char>)>) -> bool {
    forall|i: int|
        0 <= i < s.len() ==> (#[trigger] s[i]).0 == (10 * (i + 1)) as nat && line_well_numbered(
            s[i].1,
            (10 * (i + 1)) as nat,
        )
}

/// Renumbering is idempotent: a buffer already sequentially numbered
/// (10, 20, 30, ...), whose lines lead with their own numbers, renumbers
/// to an identical buffer.
pub proof fn lemma_renumber_idempotent(s: Seq<(nat, Seq<char>)>)
    requires
        sequentially_numbered(s),
    ensures
        spec_renumber(s) == s,
{
    assert forall|i: int| 0 <= i < s.len() implies spec_renumber(s)[i] == s[i] by {
        let k = (10 * (i + 1)) as nat;
        let t = s[i].1;
        let d = dec_rep(k).len() as int;
        lemma_dec_rep_digits(k);
        assert forall|m: int| 0 <= m < d implies not_space_pred()(t[m]) by {
            assert(t[m] == dec_rep(k)[m]);
        }
        lemma_run_len_is(t, not_space_pred(), d);
        assert(t.take(d) =~= dec_rep(k));
        assert(renum_text(t, k) =~= t);
    }
    assert(spec_renumber(s) =~= s);
}

/// The ordered collection of numbered program lines held for the session.
pub struct Buffer {
    entries: Vec<(usize, String)>,
}

impl View for Buffer {
    type V = Seq<(nat, Seq<char>)>;

    closed spec fn view(&self) -> Seq<(nat, Seq<char>)> {
        Seq::new(self.entries@.len(), |i: int| (self.entries@[i].0 as nat, self.entries@[i].1@))
    }
}

impl Buffer {
    /// The buffer's invariant: keys strictly ascend.
    pub open spec fn wf(&self) -> bool {
        sorted_keys(self@)
    }

    /// An empty buffer.
    pub fn new() -> (r: Buffer)
        ensures
            r@ == Seq::<(nat, Seq<char>)>::empty(),
            r.wf(),
    {
        let r = Buffer { entries: Vec::new() };
        proof {
            assert(r@ =~= Seq::<(nat, Seq<char>)>::empty());
        }
        r
    }

    /// Number of lines held.
    pub fn len(&self) -> (n: usize)
        ensures
            n as nat == self@.len(),
    {
        self.entries.len()
    }

    /// The key of the entry at position `i` in ascending key order.
    pub fn key_at(&self, i: usize) -> (k: usize)
        requires
            (i as nat) < self@.len(),
        ensures
            k as nat == self@[i as int].0,
    {
        self.entries[i].0
    }

    /// The line text of the entry at position `i` in ascending key order.
    pub fn text_at(&self, i: usize) -> (t: &String)
        requires
            (i as nat) < self@.len(),
        ensures
            t@ == self@[i as int].1,
    {
        &self.entries[i].1
    }

    /// Stores `text` under `key`, overwriting any line already keyed by it.
    pub fn insert(&mut self, key: usize, text: String)
        requires
            old(self).wf(),
        ensures
            final(self).wf(),
            final(self)@ == seq_upsert(old(self)@, key as nat, text@),
    {
        let ghost tv = text@;
        let n = self.entries.len();
        let mut i: usize = 0;
        while i < n && self.entries[i].0 < key
            invariant
                i <= n,
                n == self.entries@.len(),
                self == old(self),
                forall|m: int| 0 <= m < i ==> old(self)@[m].0 < key as nat,
            decreases n - i,
        {
            proof {
                assert(self@[i as int].0 == self.entries@[i as int].0 as nat);
            }
            i += 1;
        }
        proof {
            if i < n {
                assert(self@[i as int].0 == self.entries@[i as int].0 as nat);
            }
            lemma_upsert_at(old(self)@, key as nat, text@, i as int);
            lemma_upsert_sorted(old(self)@, key as nat, text@);
        }
        if i < n && self.entries[i].0 == key {
            self.entries[i] = (key, text);
            proof {
                assert(self@ =~= old(self)@.update(i as int, (key as nat, tv)));
            }
        } else {
            self.entries.insert(i, (key, text));
            proof {
                assert(self@ =~= old(self)@.take(i as int) + seq![(key as nat, tv)] + old(
                    self,
                )@.skip(i as int));
            }
        }
    }

    /// Rebuilds the whole buffer with keys 10, 20, 30, ... in the existing
    /// ascending order, rewriting each line's leading number to its new key
    /// and keeping everything from the first whitespace character unchanged.
    /// The new mapping is built in full before it replaces the old one.
    pub fn renumber(&mut self)
        requires
            old(self).wf(),
            10 * old(self)@.len() <= usize::MAX,
        ensures
            final(self).wf(),
            final(self)@ == spec_renumber(old(self)@),
    {
        let n = self.entries.len();
        let mut out: Vec<(usize, String)> = Vec::new();
        let mut idx: usize = 0;
        while idx < n
            invariant
                idx <= n,
                n == self.entries@.len(),
                self == old(self),
                10 * n <= usize::MAX,
                out@.len() == idx as nat,
                forall|m: int|
                    0 <= m < idx ==> ((#[trigger] out@[m]).0 as nat, out@[m].1@) == spec_renumber(
                        old(self)@,
                    )[m],
            decreases n - idx,
        {
            let line_len = self.entries[idx].1.as_str().unicode_len();
            let sp = scan_not_space(self.entries[idx].1.as_str(), 0);
            proof {
                lemma_run_len_is(self.entries@[idx as int].1@, not_space_pred(), sp as int);
            }
            let rest = self.entries[idx].1.as_str().substring_char(sp, line_len);
            let ln: usize = (idx + 1) * 10;
            let mut new_line = usize_to_string(ln);
            new_line.append(rest);
            proof {
                assert(old(self)@[idx as int].1 == self.entries@[idx as int].1@);
                assert(rest@ =~= old(self)@[idx as int].1.skip(
                    run_len(old(self)@[idx as int].1, not_space_pred()) as int,
                ));
                assert(new_line@ == renum_text(old(self)@[idx as int].1, ln as nat));
            }
            out.push((ln, new_line));
            idx += 1;
        }
        self.entries = out;
        proof {
            assert(self@ =~= spec_renumber(old(self)@));
            assert forall|i: int, j: int| 0 <= i < j < self@.len() implies self@[i].0
                < self@[j].0 by {
                assert(self@[i].0 == (10 * (i + 1)) as nat);
                assert(self@[j].0 == (10 * (j + 1)) as nat);
            }
        }
    }

    /// The buffer's full text: all lines in ascending key order, joined by
    /// single newlines.
    pub fn joined_text(&self) -> (r: String)
        ensures
            r@ == joined(self@),
    {
        let mut r = String::new();
        let n = self.entries.len();
        let mut i: usize = 0;
        proof {
            assert(self@.take(0) =~= Seq::<(nat, Seq<char>)>::empty());
        }
        while i < n
            invariant
                i <= n,
                n == self.entries@.len(),
                r@ == joined(self@.take(i as int)),
            decreases n - i,
        {
            if i > 0 {
                r.append("\n");
                proof {
                    reveal_strlit("\n");
                    assert("\n"@ =~= seq!['\n']);
                }
            }
            r.append(self.entries[i].1.as_str());
            proof {
                assert(self@[i as int].1 == self.entries@[i as int].1@);
                if i == 0 {
                    assert(self@.take(1)[0] == self@[0]);
                    assert(r@ =~= self@[0].1);
                    assert(joined(self@.take(1)) == self@.take(1)[0].1);
                } else {
                    assert(self@.take(i + 1).drop_last() =~= self@.take(i as int));
                    assert(self@.take(i + 1).last() == self@[i as int]);
                    assert(r@ =~= joined(self@.take(i + 1)));
                }
            }
            i += 1;
        }
        proof {
            assert(self@.take(n as int) =~= self@);
        }
        r
    }
}

} // verus!
