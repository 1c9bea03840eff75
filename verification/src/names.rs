//! The unique-name set: tracks issued server names and allocates the next
//! free `"{basename}-{n}"`.

use vstd::prelude::*;
use vstd::set_lib::{lemma_int_range, lemma_len_subset, set_int_range};
use vstd::string::{StrSliceExecFns, StringExecFns};

use vstd::string::StringSliceAdditionalSpecFns;

use crate::strutil::{
    ascii_chars_of, is_ascii_bytes, lemma_ascii_bytes_encode, lemma_encode_utf8_concat,
    str_eq, string_of_encoding,
};

verus! {

/// The character of a single decimal digit (`d < 10`).
pub open spec fn dec_digit_char(d: nat) -> char {
    ((48 + d) as u8) as char
}

/// The decimal digits of `n`, most significant first, no leading zeros
/// (`0` is rendered as `"0"`).
pub open spec fn dec_digits(n: nat) -> Seq<char>
    decreases n,
{
    if n < 10 {
        seq![dec_digit_char(n)]
    } else {
        dec_digits(n / 10).push(dec_digit_char(n % 10))
    }
}

/// The allocated name for `base` and index `n`: `"{base}-{n}"`.
pub open spec fn name_with_index(base: Seq<char>, n: nat) -> Seq<char> {
    base + "-"@ + dec_digits(n)
}

/// The ASCII byte of a single decimal digit.
spec fn dec_digit_byte(d: nat) -> u8 {
    (48 + d) as u8
}

/// The decimal digits of `n` as ASCII bytes.
spec fn dec_bytes(n: nat) -> Seq<u8>
    decreases n,
{
    if n < 10 {
        seq![dec_digit_byte(n)]
    } else {
        dec_bytes(n / 10).push(dec_digit_byte(n % 10))
    }
}

proof fn lemma_dec_bytes_chars(n: nat)
    ensures
        is_ascii_bytes(dec_bytes(n)),
        ascii_chars_of(dec_bytes(n)) == dec_digits(n),
        dec_bytes(n).len() == dec_digits(n).len(),
    decreases n,
{
    if n < 10 {
        assert(ascii_chars_of(dec_bytes(n)) =~= dec_digits(n));
    } else {
        lemma_dec_bytes_chars(n / 10);
        assert(ascii_chars_of(dec_bytes(n)) =~= dec_digits(n));
    }
}

proof fn lemma_dec_digits_len(n: nat)
    ensures
        dec_digits(n).len() >= 1,
        (dec_digits(n).len() == 1) == (n < 10),
    decreases n,
{
    if n >= 10 {
        lemma_dec_digits_len(n / 10);
    }
}

proof fn lemma_dec_digit_char_injective(d1: nat, d2: nat)
    requires
        d1 < 10,
        d2 < 10,
        dec_digit_char(d1) == dec_digit_char(d2),
    ensures
        d1 == d2,
{
    assert(dec_digit_char(d1) as u32 == 48 + d1);
    assert(dec_digit_char(d2) as u32 == 48 + d2);
}

proof fn lemma_dec_digits_injective(m: nat, n: nat)
    requires
        dec_digits(m) == dec_digits(n),
    ensures
        m == n,
    decreases m,
{
    lemma_dec_digits_len(m);
    lemma_dec_digits_len(n);
    if m < 10 && n < 10 {
        assert(dec_digits(m)[0] == dec_digit_char(m));
        assert(dec_digits(n)[0] == dec_digit_char(n));
        lemma_dec_digit_char_injective(m, n);
    } else if m >= 10 && n >= 10 {
        assert(dec_digits(m).last() == dec_digit_char(m % 10));
        assert(dec_digits(n).last() == dec_digit_char(n % 10));
        lemma_dec_digit_char_injective(m % 10, n % 10);
        assert(dec_digits(m).drop_last() =~= dec_digits(m / 10));
        assert(dec_digits(n).drop_last() =~= dec_digits(n / 10));
        lemma_dec_digits_injective(m / 10, n / 10);
    } else {
        // lengths 1 and >= 2 cannot be equal
        assert(false);
    }
}

proof fn lemma_name_with_index_injective(base: Seq<char>, m: nat, n: nat)
    requires
        name_with_index(base, m) == name_with_index(base, n),
    ensures
        m == n,
{
    reveal_strlit("-");
    let a = name_with_index(base, m);
    let b = name_with_index(base, n);
    let p = (base + "-"@).len() as int;
    assert(dec_digits(m) =~= a.subrange(p, a.len() as int));
    assert(dec_digits(n) =~= b.subrange(p, b.len() as int));
    lemma_dec_digits_injective(m, n);
}

proof fn lemma_injective_map_len<A, B>(s: Set<A>, f: spec_fn(A) -> B)
    requires
        s.finite(),
        forall|x: A, y: A| s.contains(x) && s.contains(y) && f(x) == f(y) ==> x == y,
    ensures
        s.map(f).finite(),
        s.map(f).len() == s.len(),
    decreases s.len(),
{
    broadcast use vstd::set::group_set_axioms;

    if s.len() == 0 {
        assert(s =~= Set::empty());
        assert(s.map(f) =~= Set::empty());
    } else {
        assert(exists|x: A| s.contains(x)) by {
            if !(exists|x: A| s.contains(x)) {
                assert(s =~= Set::empty());
            }
        }
        let x = choose|x: A| s.contains(x);
        let s2 = s.remove(x);
        lemma_injective_map_len(s2, f);
        assert(s.map(f) =~= s2.map(f).insert(f(x)));
        assert(!s2.map(f).contains(f(x)));
        assert(s.map(f).len() == s.len());
    }
}

/// Pigeonhole: among the candidate names for indices `0 ..= names.len()`, at
/// least one is not yet recorded.
proof fn lemma_free_index_exists(names: Seq<Seq<char>>, base: Seq<char>)
    requires
        names.no_duplicates(),
    ensures
        exists|m: nat| m <= names.len() && !names.contains(name_with_index(base, m)),
{
    broadcast use vstd::set::group_set_axioms;

    let ln = names.len() as int;
    if !(exists|m: nat| m <= names.len() && !names.contains(name_with_index(base, m))) {
        let cand = set_int_range(0, ln + 1);
        lemma_int_range(0, ln + 1);
        let f = |m: int| name_with_index(base, m as nat);
        assert forall|x: int, y: int|
            cand.contains(x) && cand.contains(y) && f(x) == f(y) implies x == y by {
            lemma_name_with_index_injective(base, x as nat, y as nat);
        }
        lemma_injective_map_len(cand, f);
        let taken = cand.map(f);
        assert(taken.len() == ln + 1);
        names.unique_seq_to_set();
        assert forall|nm: Seq<char>| taken.contains(nm) implies names.to_set().contains(nm) by {
            let m = choose|m: int| cand.contains(m) && f(m) == nm;
            assert(names.contains(name_with_index(base, m as nat)));
        }
        lemma_len_subset(taken, names.to_set());
        assert(false);
    }
}

/// Append the decimal digits of `n` as ASCII bytes.
fn push_decimal(out: &mut Vec<u8>, n: usize)
    ensures
        final(out)@ == old(out)@ + dec_bytes(n as nat),
    decreases n,
{
    if n >= 10 {
        push_decimal(out, n / 10);
    }
    out.push(48 + (n % 10) as u8);
    proof {
        assert(out@ =~= old(out)@ + dec_bytes(n as nat));
    }
}

/// Build `"{basename}-{n}"`.
fn make_name(basename: &str, n: usize) -> (r: String)
    ensures
        r@ == name_with_index(basename@, n as nat),
{
    let mut bytes = basename.as_bytes_vec();
    bytes.push(45);
    push_decimal(&mut bytes, n);
    proof {
        let tail_bytes = seq![45u8] + dec_bytes(n as nat);
        let tail_chars = "-"@ + dec_digits(n as nat);
        assert(bytes@ =~= basename.spec_bytes() + tail_bytes);
        lemma_dec_bytes_chars(n as nat);
        assert(is_ascii_bytes(tail_bytes));
        reveal_strlit("-");
        assert(ascii_chars_of(tail_bytes) =~= tail_chars);
        lemma_ascii_bytes_encode(tail_bytes);
        lemma_encode_utf8_concat(basename@, tail_chars);
        assert(basename@ + tail_chars =~= name_with_index(basename@, n as nat));
        assert(bytes@ == vstd::utf8::encode_utf8(name_with_index(basename@, n as nat)));
    }
    string_of_encoding(bytes, Ghost(name_with_index(basename@, n as nat)))
}

/// Tracks every server name that has been handed out. Recorded names are
/// pairwise distinct; the view is the set of recorded names.
#[derive(Debug)]
pub struct UniqueNameSet {
    used: Vec<String>,
}

impl View for UniqueNameSet {
    type V = Set<Seq<char>>;

    closed spec fn view(&self) -> Set<Seq<char>> {
        self.used.deep_view().to_set()
    }
}

impl UniqueNameSet {
    /// Internal invariant: the stored names are pairwise distinct.
    pub closed spec fn wf(&self) -> bool {
        self.used.deep_view().no_duplicates()
    }

    /// An empty set of names.
    pub fn new() -> (r: UniqueNameSet)
        ensures
            r@ == Set::<Seq<char>>::empty(),
            r.wf(),
    {
        let r = UniqueNameSet { used: Vec::new() };
        proof {
            assert(r@ =~= Set::<Seq<char>>::empty());
        }
        r
    }

    /// Where `name` is stored, if it is.
    fn position(&self, name: &str) -> (r: Option<usize>)
        ensures
            match r {
                Some(i) => i < self.used@.len() && self.used.deep_view()[i as int] == name@,
                None => !self@.contains(name@),
            },
    {
        let mut i: usize = 0;
        while i < self.used.len()
            invariant
                i <= self.used.len(),
                forall|j: int| 0 <= j < i ==> self.used.deep_view()[j] != name@,
            decreases self.used.len() - i,
        {
            if str_eq(self.used[i].as_str(), name) {
                return Some(i);
            }
            i += 1;
        }
        proof {
            assert(!self.used.deep_view().contains(name@));
        }
        None
    }

    /// Record `name`; true iff it was newly inserted.
    pub fn record(&mut self, name: &str) -> (r: bool)
        requires
            old(self).wf(),
        ensures
            final(self).wf(),
            final(self)@ == old(self)@.insert(name@),
            r == !old(self)@.contains(name@),
    {
        match self.position(name) {
            Some(_) => {
                proof {
                    assert(old(self)@.contains(name@));
                    assert(self@ =~= old(self)@.insert(name@));
                }
                false
            },
            None => {
                self.used.push(name.to_owned());
                proof {
                    let pre = old(self).used.deep_view();
                    let post = self.used.deep_view();
                    assert(post =~= pre.push(name@));
                    assert forall|x: Seq<char>| post.contains(x) implies pre.contains(x) || x
                        == name@ by {
                        let k = choose|k: int| 0 <= k < post.len() && post[k] == x;
                        if k < pre.len() as int {
                            assert(pre[k] == x);
                        }
                    }
                    assert forall|x: Seq<char>| pre.contains(x) || x == name@ implies
                        post.contains(x) by {
                        if pre.contains(x) {
                            let k = choose|k: int| 0 <= k < pre.len() && pre[k] == x;
                            assert(post[k] == x);
                        } else {
                            assert(post[pre.len() as int] == x);
                        }
                    }
                    assert(self@ =~= old(self)@.insert(name@));
                    assert forall|j: int, k: int| 0 <= j < k < post.len() implies post[j]
                        != post[k] by {
                        if k == pre.len() as int {
                            assert(pre.contains(pre[j]));
                            assert(post[j] == pre[j] && post[k] == name@);
                        }
                    }
                    assert(self.wf());
                }
                true
            },
        }
    }

    /// Forget `name`; true iff it was present (and is now removed).
    pub fn unrecord(&mut self, name: &str) -> (r: bool)
        requires
            old(self).wf(),
        ensures
            final(self).wf(),
            final(self)@ == old(self)@.remove(name@),
            r == old(self)@.contains(name@),
    {
        match self.position(name) {
            Some(i) => {
                self.used.remove(i);
                proof {
                    let pre = old(self).used.deep_view();
                    let post = self.used.deep_view();
                    assert(post =~= pre.remove(i as int));
                    assert forall|x: Seq<char>| post.contains(x) implies pre.contains(x) && x
                        != name@ by {
                        let k = choose|k: int| 0 <= k < post.len() && post[k] == x;
                        let k0: int = if k < i as int {
                            k
                        } else {
                            k + 1
                        };
                        assert(pre[k0] == x);
                        if x == name@ {
                            assert(pre[k0] == pre[i as int]);
                        }
                    }
                    assert forall|x: Seq<char>| pre.contains(x) && x != name@ implies
                        post.contains(x) by {
                        let k0 = choose|k0: int| 0 <= k0 < pre.len() && pre[k0] == x;
                        if k0 < i as int {
                            assert(post[k0] == x);
                        } else {
                            assert(post[k0 - 1] == x);
                        }
                    }
                    assert(self@ =~= old(self)@.remove(name@));
                    assert forall|j: int, k: int| 0 <= j < k < post.len() implies post[j]
                        != post[k] by {
                        let j0: int = if j < i as int {
                            j
                        } else {
                            j + 1
                        };
                        let k0: int = if k < i as int {
                            k
                        } else {
                            k + 1
                        };
                        assert(pre[j0] == post[j] && pre[k0] == post[k]);
                    }
                    assert(old(self)@.contains(name@)) by {
                        assert(pre[i as int] == name@);
                    }
                }
                true
            },
            None => {
                proof {
                    assert(self@ =~= old(self)@.remove(name@));
                }
                false
            },
        }
    }

    /// Allocate and record the first free `"{basename}-{n}"`, smallest
    /// `n >= 0` first. The returned name was free and is recorded on return.
    pub fn next_free_name(&mut self, basename: &str) -> (r: String)
        requires
            old(self).wf(),
        ensures
            final(self).wf(),
            final(self)@ == old(self)@.insert(r@),
            !old(self)@.contains(r@),
            exists|n: nat|
                r@ == name_with_index(basename@, n) && (forall|m: nat|
                    m < n ==> old(self)@.contains(name_with_index(basename@, m))),
    {
        let ghost base = basename@;
        let n_used = self.used.len();
        proof {
            lemma_free_index_exists(old(self).used.deep_view(), base);
        }
        let ghost m0 = choose|m: nat|
            m <= old(self).used.deep_view().len() && !old(self)@.contains(name_with_index(base, m));
        let mut counter: usize = 0;
        #[verifier::loop_isolation(false)]
        loop
            invariant
                self.wf(),
                self@ == old(self)@,
                counter <= m0,
                !old(self)@.contains(name_with_index(base, m0)),
                forall|m: nat| m < counter ==> old(self)@.contains(name_with_index(base, m)),
            decreases m0 - counter,
        {
            let candidate = make_name(basename, counter);
            proof {
                assert(base == basename@);
                assert(candidate@ == name_with_index(base, counter as nat));
            }
            let ghost pre_view = self@;
            let fresh = self.record(candidate.as_str());
            if fresh {
                proof {
                    assert(candidate@ == name_with_index(basename@, counter as nat) && (
                    forall|m: nat|
                        m < counter as nat ==> old(self)@.contains(
                            name_with_index(basename@, m),
                        )));
                }
                return candidate;
            }
            proof {
                assert(pre_view.contains(candidate@));
                assert(self@ =~= pre_view.insert(candidate@));
                assert(self@ =~= old(self)@);
                assert(old(self)@.contains(name_with_index(base, counter as nat)));
                assert(counter as nat != m0);
                assert(counter < m0 && m0 <= n_used);
            }
            counter += 1;
        }
    }
}

/// A name handed out by `next_free_name` is recorded before it returns: the
/// set after the call contains it, so by `record`'s contract an immediately
/// following `record` of that name returns `false`.
pub proof fn lemma_next_free_name_then_record(before: Set<Seq<char>>, fresh: Seq<char>)
    ensures
        before.insert(fresh).contains(fresh),
{
    broadcast use vstd::set::group_set_axioms;

}

} // verus!
