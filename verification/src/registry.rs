//! The computer-status registry: a snapshot map from server name to
//! `Starting`/`Online`, kept in ascending name order. Writing `Offline`
//! removes the entry, so the registry never holds an offline server.

use vstd::prelude::*;

use crate::strutil::str_eq;

verus! {

/// What the controller knows about one computer.
#[derive(Debug, Clone, Copy, PartialEq, Eq, Structural)]
pub enum ComputerStatus {
    Starting,
    Online,
    Offline,
}

/// Strict lexicographic order on character sequences, by code point; the
/// order in which the registry keeps and reports its entries.
pub open spec fn chars_lt(a: Seq<char>, b: Seq<char>) -> bool
    decreases a.len(),
{
    if b.len() == 0 {
        false
    } else if a.len() == 0 {
        true
    } else if a[0] != b[0] {
        (a[0] as u32) < (b[0] as u32)
    } else {
        chars_lt(a.drop_first(), b.drop_first())
    }
}

proof fn lemma_chars_lt_irreflexive(a: Seq<char>)
    ensures
        !chars_lt(a, a),
    decreases a.len(),
{
    if a.len() > 0 {
        lemma_chars_lt_irreflexive(a.drop_first());
    }
}

proof fn lemma_chars_lt_total(a: Seq<char>, b: Seq<char>)
    requires
        !chars_lt(a, b),
        !chars_lt(b, a),
    ensures
        a == b,
    decreases a.len(),
{
    if a.len() == 0 || b.len() == 0 {
        assert(a =~= b);
    } else if a[0] == b[0] {
        assert(chars_lt(a, b) == chars_lt(a.drop_first(), b.drop_first()));
        assert(chars_lt(b, a) == chars_lt(b.drop_first(), a.drop_first()));
        lemma_chars_lt_total(a.drop_first(), b.drop_first());
        assert(a.len() == b.len());
        assert forall|i: int| 0 <= i < a.len() implies a[i] == b[i] by {
            if i > 0 {
                assert(a[i] == a.drop_first()[i - 1] && b[i] == b.drop_first()[i - 1]);
            }
        }
        assert(a =~= b);
    } else {
        assert(a[0] as u32 == b[0] as u32);
        vstd::utf8::char_u32_cast(a[0], a[0] as u32);
        vstd::utf8::char_u32_cast(b[0], b[0] as u32);
        assert(false);
    }
}

/// The status stored for `n`, scanning front to back.
pub open spec fn spec_lookup(pairs: Seq<(Seq<char>, ComputerStatus)>, n: Seq<char>) -> Option<
    ComputerStatus,
>
    decreases pairs.len(),
{
    if pairs.len() == 0 {
        None
    } else if pairs[0].0 == n {
        Some(pairs[0].1)
    } else {
        spec_lookup(pairs.drop_first(), n)
    }
}

proof fn lemma_lookup_at_index(pairs: Seq<(Seq<char>, ComputerStatus)>, n: Seq<char>, i: int)
    requires
        0 <= i < pairs.len(),
        pairs[i].0 == n,
        forall|j: int| 0 <= j < i ==> pairs[j].0 != n,
    ensures
        spec_lookup(pairs, n) == Some(pairs[i].1),
    decreases i,
{
    if i > 0 {
        lemma_lookup_at_index(pairs.drop_first(), n, i - 1);
    }
}

proof fn lemma_lookup_absent(pairs: Seq<(Seq<char>, ComputerStatus)>, n: Seq<char>)
    requires
        forall|j: int| 0 <= j < pairs.len() ==> pairs[j].0 != n,
    ensures
        spec_lookup(pairs, n) is None,
    decreases pairs.len(),
{
    if pairs.len() > 0 {
        lemma_lookup_absent(pairs.drop_first(), n);
    }
}

/// Thread-safe in use: the I/O shell wraps one of these in a mutex; the
/// structure itself is a plain sorted association list.
#[derive(Debug)]
pub struct GlobalComputerMap {
    entries: Vec<(String, ComputerStatus)>,
}

impl View for GlobalComputerMap {
    type V = Map<Seq<char>, ComputerStatus>;

    closed spec fn view(&self) -> Map<Seq<char>, ComputerStatus> {
        Map::new(
            |n: Seq<char>| spec_lookup(self.pairs(), n) is Some,
            |n: Seq<char>|
                match spec_lookup(self.pairs(), n) {
                    Some(s) => s,
                    None => ComputerStatus::Offline,
                },
        )
    }
}

impl GlobalComputerMap {
    /// The stored entries, as mathematical pairs, in storage order.
    pub closed spec fn pairs(&self) -> Seq<(Seq<char>, ComputerStatus)> {
        Seq::new(self.entries@.len(), |i: int| (self.entries@[i].0@, self.entries@[i].1))
    }

    /// Internal invariant: entries strictly ascending by name (hence names
    /// unique), and never `Offline`.
    pub closed spec fn wf(&self) -> bool {
        &&& forall|i: int, j: int|
            0 <= i < j < self.pairs().len() ==> chars_lt(
                #[trigger] self.pairs()[i].0,
                #[trigger] self.pairs()[j].0,
            )
        &&& forall|i: int|
            0 <= i < self.pairs().len() ==> (#[trigger] self.pairs()[i]).1
                != ComputerStatus::Offline
    }

    proof fn lemma_unique_names(&self)
        requires
            self.wf(),
        ensures
            forall|i: int, j: int|
                0 <= i < self.pairs().len() && 0 <= j < self.pairs().len() && i != j ==> (
                #[trigger] self.pairs()[i]).0 != (#[trigger] self.pairs()[j]).0,
    {
        assert forall|i: int, j: int|
            0 <= i < self.pairs().len() && 0 <= j < self.pairs().len() && i != j implies (
        #[trigger] self.pairs()[i]).0 != (#[trigger] self.pairs()[j]).0 by {
            if i < j {
                lemma_chars_lt_irreflexive(self.pairs()[i].0);
            } else {
                lemma_chars_lt_irreflexive(self.pairs()[i].0);
            }
        }
    }

    /// An empty registry.
    pub fn new() -> (r: GlobalComputerMap)
        ensures
            r@ == Map::<Seq<char>, ComputerStatus>::empty(),
            r.wf(),
    {
        let r = GlobalComputerMap { entries: Vec::new() };
        proof {
            assert(r@ =~= Map::<Seq<char>, ComputerStatus>::empty());
        }
        r
    }

    /// Record `status` for `computer_name`: `Offline` removes the entry, any
    /// other status inserts or overwrites it.
    pub fn set_status(&mut self, computer_name: &str, status: ComputerStatus)
        requires
            old(self).wf(),
        ensures
            final(self).wf(),
            final(self)@ == if status is Offline {
                old(self)@.remove(computer_name@)
            } else {
                old(self)@.insert(computer_name@, status)
            },
    {
        let ghost name = computer_name@;
        let mut i: usize = 0;
        #[verifier::loop_isolation(false)]
        while i < self.entries.len() && !str_eq(self.entries[i].0.as_str(), computer_name) && str_lt(
            self.entries[i].0.as_str(),
            computer_name,
        )
            invariant
                self == old(self),
                i <= self.entries@.len(),
                forall|j: int| 0 <= j < i ==> chars_lt(#[trigger] self.pairs()[j].0, name),
            decreases self.entries@.len() - i,
        {
            i += 1;
        }
        // here: i == len, or entries[i].0 == name, or name <= entries[i].0
        let found = i < self.entries.len() && str_eq(self.entries[i].0.as_str(), computer_name);
        proof {
            self.lemma_unique_names();
            if found {
                assert forall|j: int| 0 <= j < i implies self.pairs()[j].0 != name by {
                    lemma_chars_lt_irreflexive(name);
                }
                lemma_lookup_at_index(self.pairs(), name, i as int);
            } else {
                assert forall|j: int| 0 <= j < self.pairs().len() implies self.pairs()[j].0
                    != name by {
                    if j < i {
                        lemma_chars_lt_irreflexive(name);
                    } else if j == i {
                        // loop stopped here without equality
                    } else {
                        // i < j: name is not at or after i either, since
                        // pairs[i].0 is already past name
                        if self.pairs()[j].0 == name {
                            assert(chars_lt(self.pairs()[i as int].0, self.pairs()[j].0));
                            if i < self.entries.len() {
                                lemma_chars_lt_irreflexive(self.pairs()[i as int].0);
                            }
                        }
                    }
                }
                lemma_lookup_absent(self.pairs(), name);
            }
        }
        match status {
            ComputerStatus::Offline => {
                if found {
                    self.entries.remove(i);
                    proof {
                        self.lemma_entries_removed(*old(self), i as int, name);
                    }
                } else {
                    proof {
                        assert(self@ =~= old(self)@.remove(name));
                    }
                }
            },
            _ => {
                if found {
                    self.entries[i].1 = status;
                    proof {
                        self.lemma_entries_updated(*old(self), i as int, name, status);
                    }
                } else {
                    self.entries.insert(i, (computer_name.to_owned(), status));
                    proof {
                        self.lemma_entries_inserted(*old(self), i as int, name, status);
                    }
                }
            },
        }
    }

    proof fn lemma_entries_removed(&self, pre: GlobalComputerMap, i: int, name: Seq<char>)
        requires
            pre.wf(),
            0 <= i < pre.pairs().len(),
            pre.pairs()[i].0 == name,
            self.pairs() =~= pre.pairs().remove(i),
        ensures
            self.wf(),
            self@ =~= pre@.remove(name),
    {
        pre.lemma_unique_names();
        let post = self.pairs();
        let prs = pre.pairs();
        assert forall|j: int, k: int| 0 <= j < k < post.len() implies chars_lt(
            #[trigger] post[j].0,
            #[trigger] post[k].0,
        ) by {
            let j0: int = if j < i {
                j
            } else {
                j + 1
            };
            let k0: int = if k < i {
                k
            } else {
                k + 1
            };
            assert(post[j] == prs[j0] && post[k] == prs[k0]);
        }
        assert forall|k: int| 0 <= k < post.len() implies (#[trigger] post[k]).1
            != ComputerStatus::Offline by {
            let k0: int = if k < i {
                k
            } else {
                k + 1
            };
            assert(post[k] == prs[k0]);
        }
        assert(self.wf());
        self.lemma_unique_names();
        assert forall|x: Seq<char>| true implies #[trigger] spec_lookup(post, x) == (if x != name {
            spec_lookup(prs, x)
        } else {
            None::<ComputerStatus>
        }) by {
            if exists|k: int| 0 <= k < post.len() && post[k].0 == x {
                let k = choose|k: int| 0 <= k < post.len() && post[k].0 == x;
                let k0: int = if k < i {
                    k
                } else {
                    k + 1
                };
                assert(prs[k0] == post[k]);
                lemma_first_occurrence(post, x, k);
                lemma_first_occurrence(prs, x, k0);
                assert(x != name);
            } else {
                lemma_lookup_absent(post, x);
                if x == name {
                } else {
                    assert forall|k0: int| 0 <= k0 < prs.len() implies prs[k0].0 != x by {
                        if prs[k0].0 == x {
                            let k: int = if k0 < i {
                                k0
                            } else {
                                k0 - 1
                            };
                            assert(post[k].0 == x);
                        }
                    }
                    lemma_lookup_absent(prs, x);
                }
            }
        }
        assert(self@ =~= pre@.remove(name));
    }

    proof fn lemma_entries_updated(
        &self,
        pre: GlobalComputerMap,
        i: int,
        name: Seq<char>,
        status: ComputerStatus,
    )
        requires
            pre.wf(),
            status != ComputerStatus::Offline,
            0 <= i < pre.pairs().len(),
            pre.pairs()[i].0 == name,
            self.pairs() =~= pre.pairs().update(i, (name, status)),
        ensures
            self.wf(),
            self@ =~= pre@.insert(name, status),
    {
        pre.lemma_unique_names();
        let post = self.pairs();
        let prs = pre.pairs();
        assert forall|j: int| 0 <= j < post.len() implies (#[trigger] post[j]).0 == prs[j].0 by {}
        assert(self.wf());
        self.lemma_unique_names();
        assert forall|x: Seq<char>| true implies #[trigger] spec_lookup(post, x) == (if x == name {
            Some(status)
        } else {
            spec_lookup(prs, x)
        }) by {
            if x == name {
                lemma_first_occurrence(post, x, i);
            } else {
                if exists|k: int| 0 <= k < prs.len() && prs[k].0 == x {
                    let k = choose|k: int| 0 <= k < prs.len() && prs[k].0 == x;
                    lemma_first_occurrence(prs, x, k);
                    lemma_first_occurrence(post, x, k);
                } else {
                    lemma_lookup_absent(prs, x);
                    lemma_lookup_absent(post, x);
                }
            }
        }
        assert(self@ =~= pre@.insert(name, status));
    }

    proof fn lemma_entries_inserted(
        &self,
        pre: GlobalComputerMap,
        i: int,
        name: Seq<char>,
        status: ComputerStatus,
    )
        requires
            pre.wf(),
            status != ComputerStatus::Offline,
            0 <= i <= pre.pairs().len(),
            forall|j: int| 0 <= j < i ==> chars_lt(#[trigger] pre.pairs()[j].0, name),
            forall|j: int| i <= j < pre.pairs().len() ==> pre.pairs()[j].0 != name,
            i < pre.pairs().len() ==> !chars_lt(pre.pairs()[i].0, name),
            self.pairs() =~= pre.pairs().insert(i, (name, status)),
        ensures
            self.wf(),
            self@ =~= pre@.insert(name, status),
    {
        pre.lemma_unique_names();
        let post = self.pairs();
        let prs = pre.pairs();
        // sortedness: the new element sits between the strictly smaller
        // prefix and the strictly larger suffix
        assert forall|j: int| i <= j < prs.len() implies chars_lt(name, #[trigger] prs[j].0) by {
            lemma_chars_lt_total_or(name, prs[j].0);
            if j > i {
                if chars_lt(prs[j].0, name) {
                    lemma_chars_lt_transitive(prs[i].0, prs[j].0, name);
                }
            }
        }
        assert forall|j: int, k: int| 0 <= j < k < post.len() implies chars_lt(
            #[trigger] post[j].0,
            #[trigger] post[k].0,
        ) by {
            let j0: int = if j < i {
                j
            } else {
                j - 1
            };
            let k0: int = if k < i {
                k
            } else {
                k - 1
            };
            if j == i {
                assert(post[k] == prs[k0]);
            } else if k == i {
                assert(post[j] == prs[j0]);
            } else {
                assert(post[j] == prs[j0] && post[k] == prs[k0]);
            }
        }
        assert forall|k: int| 0 <= k < post.len() implies (#[trigger] post[k]).1
            != ComputerStatus::Offline by {
            if k != i {
                let k0: int = if k < i {
                    k
                } else {
                    k - 1
                };
                assert(post[k] == prs[k0]);
            }
        }
        assert(self.wf());
        self.lemma_unique_names();
        assert forall|x: Seq<char>| true implies #[trigger] spec_lookup(post, x) == (if x == name {
            Some(status)
        } else {
            spec_lookup(prs, x)
        }) by {
            if x == name {
                assert(post[i].0 == name);
                assert forall|j: int| 0 <= j < i implies post[j].0 != x by {
                    lemma_chars_lt_irreflexive(name);
                }
                lemma_first_occurrence(post, x, i);
            } else {
                if exists|k0: int| 0 <= k0 < prs.len() && prs[k0].0 == x {
                    let k0 = choose|k0: int| 0 <= k0 < prs.len() && prs[k0].0 == x;
                    let k: int = if k0 < i {
                        k0
                    } else {
                        k0 + 1
                    };
                    assert(post[k] == prs[k0]);
                    lemma_first_occurrence(prs, x, k0);
                    lemma_first_occurrence(post, x, k);
                } else {
                    lemma_lookup_absent(prs, x);
                    assert forall|k: int| 0 <= k < post.len() implies post[k].0 != x by {
                        if k != i {
                            let k0: int = if k < i {
                                k
                            } else {
                                k - 1
                            };
                            assert(post[k] == prs[k0]);
                        }
                    }
                    lemma_lookup_absent(post, x);
                }
            }
        }
        assert(self@ =~= pre@.insert(name, status));
    }

    /// The snapshot: every entry, in ascending name order, never `Offline`.
    pub fn list_statuses(&self) -> (r: Vec<(String, ComputerStatus)>)
        requires
            self.wf(),
        ensures
            r@.len() == self.pairs().len(),
            forall|i: int|
                0 <= i < r@.len() ==> ((#[trigger] r@[i]).0@, r@[i].1) == self.pairs()[i],
            forall|i: int, j: int|
                0 <= i < j < r@.len() ==> chars_lt(#[trigger] r@[i].0@, #[trigger] r@[j].0@),
            forall|i: int| 0 <= i < r@.len() ==> (#[trigger] r@[i]).1 != ComputerStatus::Offline,
    {
        let mut r: Vec<(String, ComputerStatus)> = Vec::new();
        let mut i: usize = 0;
        #[verifier::loop_isolation(false)]
        while i < self.entries.len()
            invariant
                i <= self.entries@.len(),
                r@.len() == i,
                forall|k: int| 0 <= k < i ==> ((#[trigger] r@[k]).0@, r@[k].1) == self.pairs()[k],
            decreases self.entries@.len() - i,
        {
            let name = self.entries[i].0.clone();
            let status = self.entries[i].1;
            r.push((name, status));
            i += 1;
        }
        proof {
            assert forall|k: int, j: int| 0 <= k < j < r@.len() implies chars_lt(
                #[trigger] r@[k].0@,
                #[trigger] r@[j].0@,
            ) by {
                assert(((r@[k]).0@, r@[k].1) == self.pairs()[k]);
                assert(((r@[j]).0@, r@[j].1) == self.pairs()[j]);
                assert(chars_lt(self.pairs()[k].0, self.pairs()[j].0));
            }
            assert forall|k: int| 0 <= k < r@.len() implies (#[trigger] r@[k]).1
                != ComputerStatus::Offline by {
                assert(((r@[k]).0@, r@[k].1) == self.pairs()[k]);
            }
        }
        r
    }
}

proof fn lemma_first_occurrence(
    pairs: Seq<(Seq<char>, ComputerStatus)>,
    x: Seq<char>,
    k: int,
)
    requires
        0 <= k < pairs.len(),
        pairs[k].0 == x,
        forall|i: int, j: int|
            0 <= i < pairs.len() && 0 <= j < pairs.len() && i != j ==> (#[trigger] pairs[i]).0 != (
            #[trigger] pairs[j]).0,
    ensures
        spec_lookup(pairs, x) == Some(pairs[k].1),
{
    lemma_lookup_at_index(pairs, x, k);
}

proof fn lemma_chars_lt_total_or(a: Seq<char>, b: Seq<char>)
    ensures
        chars_lt(a, b) || chars_lt(b, a) || a == b,
{
    if !chars_lt(a, b) && !chars_lt(b, a) {
        lemma_chars_lt_total(a, b);
    }
}

proof fn lemma_chars_lt_transitive(a: Seq<char>, b: Seq<char>, c: Seq<char>)
    requires
        chars_lt(a, b),
        chars_lt(b, c),
    ensures
        chars_lt(a, c),
    decreases a.len(),
{
    if b.len() == 0 || c.len() == 0 {
    } else if a.len() == 0 {
    } else {
        if a[0] == b[0] && b[0] == c[0] {
            lemma_chars_lt_transitive(a.drop_first(), b.drop_first(), c.drop_first());
        }
    }
}

/// Character-exact `<` on strings, matching [`chars_lt`] on the views.
pub fn str_lt(a: &str, b: &str) -> (r: bool)
    ensures
        r == chars_lt(a@, b@),
{
    let a_len = a.unicode_len();
    let b_len = b.unicode_len();
    let mut i: usize = 0;
    proof {
        assert(a@.skip(0) =~= a@);
        assert(b@.skip(0) =~= b@);
    }
    #[verifier::loop_isolation(false)]
    while i < a_len && i < b_len
        invariant
            i <= a_len,
            i <= b_len,
            forall|j: int| 0 <= j < i ==> a@[j] == b@[j],
            chars_lt(a@, b@) == chars_lt(a@.skip(i as int), b@.skip(i as int)),
        decreases a_len - i,
    {
        let ca = a.get_char(i);
        let cb = b.get_char(i);
        if ca as u32 != cb as u32 {
            proof {
                assert(a@.skip(i as int)[0] == ca && b@.skip(i as int)[0] == cb);
                assert(ca != cb) by {
                    assert(ca as u32 != cb as u32);
                }
            }
            return (ca as u32) < (cb as u32);
        }
        i += 1;
        proof {
            assert(a@.skip(i as int) =~= a@.skip(i - 1).drop_first());
            assert(b@.skip(i as int) =~= b@.skip(i - 1).drop_first());
            assert(a@.skip(i - 1)[0] == b@.skip(i - 1)[0]);
        }
    }
    proof {
        if a_len < b_len {
            assert(a@.skip(i as int).len() == 0 && b@.skip(i as int).len() > 0);
        } else {
            assert(b@.skip(i as int).len() == 0);
        }
    }
    a_len < b_len
}


/// How a status is written on the status page.
pub open spec fn status_word(s: ComputerStatus) -> Seq<char> {
    match s {
        ComputerStatus::Starting => "starting"@,
        ComputerStatus::Online => "online"@,
        ComputerStatus::Offline => "offline"@,
    }
}

/// The status page body for a snapshot: one `name,status` line per entry,
/// in snapshot order.
pub open spec fn spec_render(pairs: Seq<(Seq<char>, ComputerStatus)>) -> Seq<char>
    decreases pairs.len(),
{
    if pairs.len() == 0 {
        Seq::empty()
    } else {
        spec_render(pairs.drop_last()) + pairs.last().0 + ","@ + status_word(pairs.last().1)
            + "\n"@
    }
}

/// The mathematical pairs of a snapshot vector.
pub open spec fn snapshot_pairs(entries: Seq<(String, ComputerStatus)>) -> Seq<
    (Seq<char>, ComputerStatus),
> {
    Seq::new(entries.len(), |i: int| (entries[i].0@, entries[i].1))
}

/// Render the status page body from a snapshot. Offline entries cannot occur
/// in a snapshot (the registry removes them on write), so none is accepted.
pub fn render_status_lines(entries: &Vec<(String, ComputerStatus)>) -> (r: String)
    requires
        forall|i: int|
            0 <= i < entries@.len() ==> (#[trigger] entries@[i]).1 != ComputerStatus::Offline,
    ensures
        r@ == spec_render(snapshot_pairs(entries@)),
{
    let ghost pairs = snapshot_pairs(entries@);
    let mut r = String::new();
    let mut i: usize = 0;
    #[verifier::loop_isolation(false)]
    while i < entries.len()
        invariant
            i <= entries@.len(),
            r@ == spec_render(pairs.take(i as int)),
        decreases entries@.len() - i,
    {
        r.append(entries[i].0.as_str());
        r.append(",");
        match entries[i].1 {
            ComputerStatus::Starting => r.append("starting"),
            ComputerStatus::Online => r.append("online"),
            ComputerStatus::Offline => {
                proof {
                    assert(false);
                }
            },
        }
        r.append("\n");
        i += 1;
        proof {
            assert(pairs.take(i as int).drop_last() =~= pairs.take(i - 1));
            assert(r@ =~= spec_render(pairs.take(i as int)));
        }
    }
    proof {
        assert(pairs.take(entries@.len() as int) =~= pairs);
    }
    r
}

/// The status page never reports `offline`: every line of the rendered body
/// carries the word for `Starting` or for `Online`, because a well-formed
/// registry stores no `Offline` entry and rendering maps only those two.
pub proof fn lemma_never_reports_offline(m: GlobalComputerMap)
    requires
        m.wf(),
    ensures
        forall|i: int|
            0 <= i < m.pairs().len() ==> status_word((#[trigger] m.pairs()[i]).1) == "starting"@
                || status_word(m.pairs()[i].1) == "online"@,
        forall|i: int|
            0 <= i < m.pairs().len() ==> (#[trigger] m.pairs()[i]).1 != ComputerStatus::Offline,
{
}

} // verus!
