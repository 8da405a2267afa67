//! The delimited-set wire encoding.
//!
//! A set of ids is serialized as each id followed by the delimiter `'@'`;
//! decoding splits on the delimiter and discards empty tokens.  Ids are
//! required to be nonempty and delimiter-free, which the id generator
//! guarantees by construction.

use vstd::prelude::*;
use vstd::string::StrSliceExecFns;
use vstd::string::StringExecFns;
use crate::strings::split_all_str;

verus! {

/// An id may stand in an encoded set: nonempty and free of the delimiter.
pub open spec fn valid_id(s: Seq<char>) -> bool {
    s.len() > 0 && forall|i: int| 0 <= i < s.len() ==> s[i] != '@'
}

/// Every id in the sequence is valid.
pub open spec fn all_valid_ids(ids: Seq<Seq<char>>) -> bool {
    forall|i: int| 0 <= i < ids.len() ==> valid_id(#[trigger] ids[i])
}

/// The encoded form: each id in order, each followed by the delimiter.
pub open spec fn encode_ids(ids: Seq<Seq<char>>) -> Seq<char>
    decreases ids.len(),
{
    if ids.len() == 0 {
        Seq::empty()
    } else {
        ids[0] + seq!['@'] + encode_ids(ids.drop_first())
    }
}

/// The position of the first delimiter, or the length when there is none.
pub open spec fn first_delim(s: Seq<char>) -> int
    decreases s.len(),
{
    if s.len() == 0 {
        0
    } else if s[0] == '@' {
        0
    } else {
        1 + first_delim(s.drop_first())
    }
}

/// The decoded form: the tokens between delimiters, empty tokens dropped.
pub open spec fn split_ids(s: Seq<char>) -> Seq<Seq<char>>
    decreases s.len(),
{
    if s.len() == 0 {
        Seq::empty()
    } else {
        let k = first_delim(s);
        let rest = if 0 <= k && k + 1 <= s.len() {
            s.skip(k + 1)
        } else {
            Seq::<char>::empty()
        };
        if k == 0 {
            split_ids(rest)
        } else {
            seq![s.take(k)] + split_ids(rest)
        }
    }
}

pub proof fn lemma_first_delim_props(s: Seq<char>)
    ensures
        0 <= first_delim(s) <= s.len(),
        forall|i: int| 0 <= i < first_delim(s) ==> s[i] != '@',
        first_delim(s) < s.len() ==> s[first_delim(s)] == '@',
    decreases s.len(),
{
    if s.len() == 0 {
    } else if s[0] == '@' {
    } else {
        lemma_first_delim_props(s.drop_first());
        assert forall|i: int| 0 <= i < first_delim(s) implies s[i] != '@' by {
            if i > 0 {
                assert(s.drop_first()[i - 1] != '@');
            }
        }
    }
}

/// The first delimiter is exactly where the first delimiter character sits.
pub proof fn lemma_first_delim_at(s: Seq<char>, k: int)
    requires
        0 <= k <= s.len(),
        forall|i: int| 0 <= i < k ==> s[i] != '@',
        k == s.len() || s[k] == '@',
    ensures
        first_delim(s) == k,
    decreases s.len(),
{
    if s.len() == 0 {
    } else if k == 0 {
    } else {
        assert(s[0] != '@');
        lemma_first_delim_at(s.drop_first(), k - 1);
    }
}

/// Splitting distributes over concatenation at a delimiter boundary.
pub proof fn lemma_split_concat(a: Seq<char>, b: Seq<char>)
    requires
        a.len() == 0 || a.last() == '@',
    ensures
        split_ids(a + b) == split_ids(a) + split_ids(b),
    decreases a.len(),
{
    if a.len() == 0 {
        assert(a + b =~= b);
        assert(split_ids(a) + split_ids(b) =~= split_ids(b));
    } else {
        lemma_first_delim_props(a);
        let k = first_delim(a);
        if k == a.len() {
            // every char of a would be a non-delimiter, contradicting a.last()
            assert(a[a.len() - 1] == '@');
            assert(false);
        }
        lemma_first_delim_at(a + b, k);
        let arest = a.skip(k + 1);
        assert((a + b).skip(k + 1) =~= arest + b);
        assert((a + b).take(k) =~= a.take(k));
        if k + 1 == a.len() {
            assert(arest.len() == 0);
        } else {
            assert(arest.last() == a.last());
        }
        lemma_split_concat(arest, b);
        if k == 0 {
            assert(split_ids(a + b) == split_ids(a) + split_ids(b));
        } else {
            assert(split_ids(a + b) =~= split_ids(a) + split_ids(b));
        }
    }
}

/// One valid id followed by the delimiter decodes to exactly that id.
pub proof fn lemma_split_single(id: Seq<char>)
    requires
        valid_id(id),
    ensures
        split_ids(id + seq!['@']) == seq![id],
{
    let s = id + seq!['@'];
    lemma_first_delim_at(s, id.len() as int);
    let k = first_delim(s);
    assert(k == id.len());
    assert(k > 0);
    assert(k + 1 == s.len());
    let rest = s.skip(k + 1);
    assert(rest.len() == 0);
    assert(split_ids(rest) == Seq::<Seq<char>>::empty());
    assert(split_ids(s) == seq![s.take(k)] + split_ids(rest));
    assert(s.take(k) =~= id);
    assert(split_ids(s) =~= seq![id]);
}

/// Encoding distributes over concatenation.
pub proof fn lemma_encode_concat(x: Seq<Seq<char>>, y: Seq<Seq<char>>)
    ensures
        encode_ids(x + y) == encode_ids(x) + encode_ids(y),
    decreases x.len(),
{
    if x.len() == 0 {
        assert(x + y =~= y);
        assert(encode_ids(x) + encode_ids(y) =~= encode_ids(y));
    } else {
        assert((x + y).drop_first() =~= x.drop_first() + y);
        lemma_encode_concat(x.drop_first(), y);
        assert(encode_ids(x + y) =~= encode_ids(x) + encode_ids(y));
    }
}

/// An encoded sequence is empty or ends with the delimiter.
pub proof fn lemma_encode_boundary(ids: Seq<Seq<char>>)
    ensures
        encode_ids(ids).len() == 0 || encode_ids(ids).last() == '@',
    decreases ids.len(),
{
    if ids.len() > 0 {
        lemma_encode_boundary(ids.drop_first());
        let head = ids[0] + seq!['@'];
        let tail = encode_ids(ids.drop_first());
        if tail.len() == 0 {
            assert(encode_ids(ids).last() == head.last());
        } else {
            assert(encode_ids(ids) =~= head + tail);
            assert((head + tail).last() == tail.last());
        }
    }
}

/// Decoding inverts encoding: any sequence of valid ids comes back
/// exactly, in order, from its delimited encoding.
pub proof fn lemma_split_encode_ids(ids: Seq<Seq<char>>)
    requires
        all_valid_ids(ids),
    ensures
        split_ids(encode_ids(ids)) == ids,
    decreases ids.len(),
{
    if ids.len() == 0 {
    } else {
        let head = ids[0] + seq!['@'];
        let tail = encode_ids(ids.drop_first());
        assert(encode_ids(ids) =~= head + tail);
        assert(head.last() == '@');
        lemma_split_concat(head, tail);
        lemma_split_single(ids[0]);
        lemma_split_encode_ids(ids.drop_first());
        assert(split_ids(encode_ids(ids)) =~= ids);
    }
}

/// Every token a split yields is a valid id.
pub proof fn lemma_split_all_valid(s: Seq<char>)
    ensures
        all_valid_ids(split_ids(s)),
    decreases s.len(),
{
    if s.len() == 0 {
    } else {
        lemma_first_delim_props(s);
        let k = first_delim(s);
        let rest = if 0 <= k && k + 1 <= s.len() {
            s.skip(k + 1)
        } else {
            Seq::<char>::empty()
        };
        lemma_split_all_valid(rest);
        if k == 0 {
        } else {
            assert(valid_id(s.take(k)));
            assert(forall|i: int|
                0 <= i < split_ids(s).len() ==> valid_id(#[trigger] split_ids(s)[i])) by {
                assert(split_ids(s) == seq![s.take(k)] + split_ids(rest));
            }
        }
    }
}

/// Membership in a sequence extended by one element.
proof fn lemma_push_contains(s: Seq<Seq<char>>, x: Seq<char>)
    ensures
        forall|t: Seq<char>| #[trigger] (s + seq![x]).contains(t) <==> s.contains(t) || t == x,
{
    let s2 = s + seq![x];
    assert(s2[s.len() as int] == x);
    assert forall|t: Seq<char>| #[trigger] s2.contains(t) implies s.contains(t) || t == x by {
        let w = choose|w: int| 0 <= w < s2.len() && s2[w] == t;
        if w < s.len() {
            assert(s[w] == t);
        }
    }
    assert forall|t: Seq<char>| s.contains(t) implies s2.contains(t) by {
        let w = choose|w: int| 0 <= w < s.len() && s[w] == t;
        assert(s2[w] == t);
    }
}

/// Splitting one token off the front: between a boundary `p` and the next
/// delimiter (or the end) `j`, the tokens of the tail at `p` are the token
/// `s[p..j]`, if nonempty, followed by the tokens of the tail past `j`.
pub proof fn lemma_split_step(s: Seq<char>, p: int, j: int)
    requires
        0 <= p <= j <= s.len(),
        forall|t: int| p <= t < j ==> s[t] != '@',
        j == s.len() || s[j] == '@',
    ensures
        split_ids(s.skip(p)) == (if j > p {
            seq![s.subrange(p, j)]
        } else {
            Seq::<Seq<char>>::empty()
        }) + split_ids(
            if j < s.len() {
                s.skip(j + 1)
            } else {
                Seq::<char>::empty()
            },
        ),
{
    let u = s.skip(p);
    if p == s.len() {
        assert(u.len() == 0);
        assert(split_ids(u) =~= Seq::<Seq<char>>::empty() + split_ids(Seq::<char>::empty()));
    } else {
        assert forall|t: int| 0 <= t < j - p implies u[t] != '@' by {
            assert(u[t] == s[p + t]);
        }
        if j < s.len() {
            assert(u[j - p] == s[j]);
        }
        lemma_first_delim_at(u, j - p);
        let k = j - p;
        if j < s.len() {
            assert(u.skip(k + 1) =~= s.skip(j + 1));
            assert(u.take(k) =~= s.subrange(p, j));
            if k == 0 {
                assert(split_ids(u) =~= Seq::<Seq<char>>::empty() + split_ids(s.skip(j + 1)));
            } else {
                assert(split_ids(u) =~= seq![s.subrange(p, j)] + split_ids(s.skip(j + 1)));
            }
        } else {
            // no delimiter remains: the token runs to the end
            assert(k == u.len());
            assert(k > 0);
            assert(u.take(k) =~= s.subrange(p, j));
            assert(split_ids(u) =~= seq![s.subrange(p, j)] + split_ids(Seq::<char>::empty()));
        }
    }
}

/// An ordered, duplicate-free collection of ids, the in-memory form of one
/// delimited-set column.  Iteration order is insertion order.
pub struct IdSet {
    ids: Vec<String>,
}

impl View for IdSet {
    type V = Seq<Seq<char>>;

    closed spec fn view(&self) -> Seq<Seq<char>> {
        self.ids.deep_view()
    }
}

impl IdSet {
    /// Well-formed: no duplicates, every member a valid id.
    pub open spec fn wf(&self) -> bool {
        wf_idset_view(self@)
    }

    pub fn new() -> (r: IdSet)
        ensures
            r@ =~= Seq::<Seq<char>>::empty(),
            r.wf(),
    {
        IdSet { ids: Vec::new() }
    }

    pub fn len(&self) -> (n: usize)
        ensures
            n == self@.len(),
    {
        self.ids.len()
    }

    /// The members, in insertion order.
    pub fn members(&self) -> (v: &Vec<String>)
        ensures
            v.deep_view() == self@,
    {
        &self.ids
    }

    pub fn contains(&self, id: &String) -> (b: bool)
        ensures
            b == self@.contains(id@),
    {
        let n = self.ids.len();
        let mut i: usize = 0;
        while i < n
            invariant
                i <= n,
                n == self.ids.len(),
                self@ == self.ids.deep_view(),
                forall|k: int| 0 <= k < i ==> self@[k] != id@,
            decreases n - i,
        {
            if self.ids[i] == *id {
                assert(self@[i as int] == id@);
                return true;
            }
            i += 1;
        }
        false
    }

    /// Adds the id unless it is already a member.
    pub fn insert(&mut self, id: String)
        requires
            old(self).wf(),
            valid_id(id@),
        ensures
            final(self).wf(),
            final(self)@ == if old(self)@.contains(id@) {
                old(self)@
            } else {
                old(self)@ + seq![id@]
            },
    {
        if !self.contains(&id) {
            let ghost before = self@;
            self.ids.push(id);
            proof {
                assert(self@ =~= before + seq![id@]);
            }
        }
    }

    /// Removes the id if it is a member; without duplicates there is at
    /// most one occurrence.
    pub fn remove(&mut self, id: &String)
        requires
            old(self).wf(),
        ensures
            final(self).wf(),
            final(self)@ == old(self)@.remove_value(id@),
            !final(self)@.contains(id@),
    {
        let ghost before = self@;
        let n = self.ids.len();
        let mut i: usize = 0;
        while i < n
            invariant
                i <= n,
                n == self.ids.len(),
                self@ == self.ids.deep_view(),
                self@ == before,
                before == old(self)@,
                wf_idset_view(before),
                forall|k: int| 0 <= k < i ==> before[k] != id@,
            decreases n - i,
        {
            if self.ids[i] == *id {
                assert(before[i as int] == id@);
                self.ids.remove(i);
                proof {
                    assert(self@ =~= before.remove(i as int));
                    assert(before.contains(id@));
                    before.index_of_first_ensures(id@);
                    let w = before.index_of_first(id@)->Some_0;
                    assert(before.index_of_first(id@) is Some);
                    assert(before[w] == id@);
                    if w < i {
                        assert(false);
                    }
                    if w > i {
                        assert(before[i as int] == id@);
                        assert(false);
                    }
                    assert(before.index_of_first(id@) == Some(i as int));
                    assert(before.remove_value(id@) == before.remove(i as int));
                    lemma_remove_keeps_wf(before, i as int);
                    assert forall|k: int|
                        0 <= k < before.remove(i as int).len() implies before.remove(i as int)[k]
                        != id@ by {
                        if k < i {
                        } else {
                            assert(before.remove(i as int)[k] == before[k + 1]);
                        }
                    }
                }
                return ;
            }
            i += 1;
        }
        proof {
            assert(!before.contains(id@));
            before.index_of_first_ensures(id@);
            assert(before.remove_value(id@) == before);
        }
    }
}

/// Whether a string may serve as an id in an encoded set: nonempty and
/// free of the delimiter.  Callers gate request-supplied ids with this
/// before handing them to the set operations.
pub fn id_ok(s: &str) -> (r: bool)
    ensures
        r == valid_id(s@),
{
    let n = s.unicode_len();
    if n == 0 {
        return false;
    }
    let mut i: usize = 0;
    while i < n
        invariant
            i <= n,
            n == s@.len(),
            forall|k: int| 0 <= k < i ==> s@[k] != '@',
        decreases n - i,
    {
        if s.get_char(i) == '@' {
            return false;
        }
        i += 1;
    }
    true
}

/// Serializes the set: each member in order, each followed by the delimiter.
pub fn set_to_string(set: &IdSet) -> (r: String)
    ensures
        r@ == encode_ids(set@),
{
    let mut r = String::new();
    let n = set.ids.len();
    let mut i: usize = 0;
    proof {
        assert(set@.take(0) =~= Seq::<Seq<char>>::empty());
    }
    while i < n
        invariant
            i <= n,
            n == set.ids.len(),
            set@ == set.ids.deep_view(),
            r@ == encode_ids(set@.take(i as int)),
        decreases n - i,
    {
        let ghost prefix = set@.take(i as int);
        let ghost member = set@[i as int];
        r.append(set.ids[i].as_str());
        r.append("@");
        proof {
            reveal_strlit("@");
            assert("@"@ =~= seq!['@']);
            lemma_encode_concat(prefix, seq![member]);
            assert(encode_ids(seq![member]) =~= member + seq!['@']) by {
                assert(seq![member].drop_first() =~= Seq::<Seq<char>>::empty());
                assert(encode_ids(Seq::<Seq<char>>::empty()) == Seq::<char>::empty());
                assert(member + seq!['@'] + Seq::<char>::empty() =~= member + seq!['@']);
            }
            assert(set@.take(i + 1) =~= prefix + seq![member]);
            assert(r@ =~= encode_ids(set@.take(i + 1)));
        }
        i += 1;
    }
    proof {
        assert(set@.take(n as int) =~= set@);
    }
    r
}

/// Parses a delimited-set string: splits on the delimiter, drops empty
/// tokens, and collapses duplicates, keeping first occurrences in order.
pub fn string_to_set(input: &str) -> (r: IdSet)
    ensures
        r.wf(),
        r@.to_set() == split_ids(input@).to_set(),
        forall|t: Seq<char>| r@.contains(t) <==> split_ids(input@).contains(t),
        split_ids(input@).no_duplicates() ==> r@ == split_ids(input@),
{
    let n = input.unicode_len();
    let mut r = IdSet::new();
    let ghost mut done: Seq<Seq<char>> = Seq::empty();
    let mut p: usize = 0;
    proof {
        assert(input@.skip(0) =~= input@);
    }
    while p < n
        invariant
            p <= n,
            n == input@.len(),
            split_ids(input@) == done + split_ids(input@.skip(p as int)),
            r.wf(),
            r@.to_set() == done.to_set(),
            forall|t: Seq<char>| r@.contains(t) <==> done.contains(t),
            done.no_duplicates() ==> r@ == done,
        decreases n - p,
    {
        let mut j = p;
        while j < n && input.get_char(j) != '@'
            invariant
                p <= j <= n,
                n == input@.len(),
                forall|t: int| p <= t < j ==> input@[t] != '@',
            decreases n - j,
        {
            j += 1;
        }
        proof {
            lemma_split_step(input@, p as int, j as int);
        }
        if j > p {
            let tok = input.substring_char(p, j).to_owned();
            assert(tok@ == input@.subrange(p as int, j as int));
            assert(valid_id(tok@));
            let ghost tokv = tok@;
            let ghost done2 = done + seq![tokv];
            let ghost rv = r@;
            let dup = r.contains(&tok);
            if !dup {
                r.insert(tok);
            }
            proof {
                lemma_push_contains(done, tokv);
                if !dup {
                    assert(r@ == rv + seq![tokv]);
                    lemma_push_contains(rv, tokv);
                } else {
                    assert(r@ == rv);
                    assert(rv.contains(tokv));
                    assert(done.contains(tokv));
                    assert(!done2.no_duplicates()) by {
                        let w = choose|w: int| 0 <= w < done.len() && done[w] == tokv;
                        assert(done2[w] == tokv);
                        assert(done2[done.len() as int] == tokv);
                        assert(w < done.len());
                        assert(done2[w] == done2[done.len() as int]);
                    }
                }
                assert(forall|t: Seq<char>| r@.contains(t) <==> done2.contains(t));
                assert(r@.to_set() =~= done2.to_set());
                if done2.no_duplicates() {
                    assert(done.no_duplicates()) by {
                        assert forall|a: int, b: int| 0 <= a < b < done.len() implies done[a]
                            != done[b] by {
                            assert(done2[a] == done[a]);
                            assert(done2[b] == done[b]);
                        }
                    }
                    assert(!done.contains(tokv)) by {
                        if done.contains(tokv) {
                            let w = choose|w: int| 0 <= w < done.len() && done[w] == tokv;
                            assert(done2[w] == tokv);
                            assert(done2[done.len() as int] == tokv);
                        }
                    }
                    assert(rv == done);
                    assert(r@ == done2);
                }
                done = done2;
            }
            p = if j < n {
                j + 1
            } else {
                n
            };
            proof {
                if j == n {
                    assert(input@.skip(n as int) =~= Seq::<char>::empty());
                }
            }
        } else {
            // empty token: step past the delimiter
            p = j + 1;
            proof {
                assert(j < n);
            }
        }
    }
    proof {
        assert(input@.skip(p as int) =~= Seq::<char>::empty());
        assert(split_ids(input@) =~= done);
    }
    r
}

/// The tokens with every occurrence of `id` removed.
pub open spec fn remove_id(tokens: Seq<Seq<char>>, id: Seq<char>) -> Seq<Seq<char>>
    decreases tokens.len(),
{
    if tokens.len() == 0 {
        Seq::empty()
    } else {
        let rest = remove_id(tokens.drop_first(), id);
        if tokens[0] == id {
            rest
        } else {
            seq![tokens[0]] + rest
        }
    }
}

/// `remove_id` over a sequence extended at the back.
pub proof fn lemma_remove_id_snoc(tokens: Seq<Seq<char>>, t: Seq<char>, id: Seq<char>)
    ensures
        remove_id(tokens + seq![t], id) == remove_id(tokens, id) + (if t == id {
            Seq::<Seq<char>>::empty()
        } else {
            seq![t]
        }),
    decreases tokens.len(),
{
    let ext = tokens + seq![t];
    if tokens.len() == 0 {
        assert(ext =~= seq![t]);
        assert(seq![t].drop_first() =~= Seq::<Seq<char>>::empty());
        assert(remove_id(seq![t].drop_first(), id) == Seq::<Seq<char>>::empty());
        assert(remove_id(tokens, id) == Seq::<Seq<char>>::empty());
        if t == id {
            assert(remove_id(ext, id) =~= remove_id(tokens, id));
        } else {
            assert(remove_id(ext, id) == seq![t] + Seq::<Seq<char>>::empty());
            assert(remove_id(ext, id) =~= remove_id(tokens, id) + seq![t]);
        }
    } else {
        assert(ext.drop_first() =~= tokens.drop_first() + seq![t]);
        lemma_remove_id_snoc(tokens.drop_first(), t, id);
        if tokens[0] == id {
        } else {
            if t == id {
                assert(remove_id(ext, id) =~= remove_id(tokens, id) + Seq::<Seq<char>>::empty());
            } else {
                assert(remove_id(ext, id) =~= remove_id(tokens, id) + seq![t]);
            }
        }
    }
}

/// Appends one id to an already encoded set, as the storage layer does on
/// a membership column: the new encoding carries exactly one more token.
pub fn append_encoded(enc: &str, id: &str) -> (r: String)
    requires
        valid_id(id@),
        enc@.len() == 0 || enc@.last() == '@',
    ensures
        r@ == enc@ + id@ + seq!['@'],
        split_ids(r@) == split_ids(enc@) + seq![id@],
        r@.last() == '@',
{
    let mut r = enc.to_owned();
    r.append(id);
    r.append("@");
    proof {
        reveal_strlit("@");
        assert("@"@ =~= seq!['@']);
        lemma_split_concat(enc@, id@ + seq!['@']);
        lemma_split_single(id@);
        assert(r@ =~= enc@ + (id@ + seq!['@']));
        assert(r@ =~= enc@ + id@ + seq!['@']);
        assert(r@.last() == '@');
    }
    r
}

/// Removes every token equal to `id` from an encoded set, re-encoding the
/// remaining tokens in order: the token-level counterpart of the textual
/// `REPLACE` that detaches a member from a membership column.
pub fn detach_encoded(enc: &str, id: &String) -> (r: String)
    ensures
        split_ids(r@) == remove_id(split_ids(enc@), id@),
        r@.len() == 0 || r@.last() == '@',
{
    let n = enc.unicode_len();
    let mut r = String::new();
    let ghost mut done: Seq<Seq<char>> = Seq::empty();
    let mut p: usize = 0;
    proof {
        assert(enc@.skip(0) =~= enc@);
        assert(remove_id(Seq::<Seq<char>>::empty(), id@) == Seq::<Seq<char>>::empty());
        assert(split_ids(r@) =~= Seq::<Seq<char>>::empty());
    }
    while p < n
        invariant
            p <= n,
            n == enc@.len(),
            split_ids(enc@) == done + split_ids(enc@.skip(p as int)),
            split_ids(r@) == remove_id(done, id@),
            r@.len() == 0 || r@.last() == '@',
        decreases n - p,
    {
        let mut j = p;
        while j < n && enc.get_char(j) != '@'
            invariant
                p <= j <= n,
                n == enc@.len(),
                forall|t: int| p <= t < j ==> enc@[t] != '@',
            decreases n - j,
        {
            j += 1;
        }
        proof {
            lemma_split_step(enc@, p as int, j as int);
        }
        if j > p {
            let tok = enc.substring_char(p, j).to_owned();
            assert(valid_id(tok@));
            let ghost done2 = done + seq![tok@];
            proof {
                lemma_remove_id_snoc(done, tok@, id@);
            }
            if !(tok == *id) {
                let ghost rv = r@;
                proof {
                    lemma_split_concat(rv, tok@ + seq!['@']);
                    lemma_split_single(tok@);
                }
                r.append(tok.as_str());
                r.append("@");
                proof {
                    reveal_strlit("@");
                    assert("@"@ =~= seq!['@']);
                    assert(r@ =~= rv + (tok@ + seq!['@']));
                    assert(split_ids(r@) == split_ids(rv) + seq![tok@]);
                    assert(split_ids(r@) =~= remove_id(done2, id@));
                    assert(r@.last() == '@');
                }
            }
            proof {
                done = done2;
            }
            p = if j < n {
                j + 1
            } else {
                n
            };
            proof {
                if j == n {
                    assert(enc@.skip(n as int) =~= Seq::<char>::empty());
                }
            }
        } else {
            p = j + 1;
        }
    }
    proof {
        assert(enc@.skip(p as int) =~= Seq::<char>::empty());
        assert(done =~= split_ids(enc@));
    }
    r
}

/// A field-for-field copy.
impl IdSet {
    pub fn duplicate(&self) -> (r: IdSet)
        ensures
            r@ == self@,
    {
        let n = self.ids.len();
        let mut ids: Vec<String> = Vec::new();
        let mut i: usize = 0;
        while i < n
            invariant
                i <= n,
                n == self.ids.len(),
                ids@.len() == i,
                forall|k: int| 0 <= k < i ==> (#[trigger] ids.deep_view()[k]) == self@[k],
            decreases n - i,
        {
            let ghost before = ids.deep_view();
            ids.push(self.ids[i].clone());
            proof {
                assert forall|k: int| 0 <= k < i + 1 implies (#[trigger] ids.deep_view()[k])
                    == self@[k] by {
                    if k < i {
                        assert(ids.deep_view()[k] == before[k]);
                    } else {
                        assert(ids.deep_view()[k] == ids@[k]@);
                    }
                }
            }
            i += 1;
        }
        let r = IdSet { ids };
        proof {
            assert(r@ =~= self@);
        }
        r
    }
}

/// The four corner tokens of a container's bounding box, in wire form:
/// the textual fractions of the two corners, delimiter-free.  Their
/// numeric reading lives outside the library.
pub struct Corners {
    pub x0: String,
    pub y0: String,
    pub x1: String,
    pub y1: String,
}

impl Corners {
    pub open spec fn view4(&self) -> (Seq<char>, Seq<char>, Seq<char>, Seq<char>) {
        (self.x0@, self.y0@, self.x1@, self.y1@)
    }

    /// Well-formed: each token nonempty and delimiter-free.
    pub open spec fn wf(&self) -> bool {
        valid_id(self.x0@) && valid_id(self.y0@) && valid_id(self.x1@) && valid_id(self.y1@)
    }

    pub fn duplicate(&self) -> (r: Corners)
        ensures
            r.view4() == self.view4(),
    {
        Corners {
            x0: self.x0.clone(),
            y0: self.y0.clone(),
            x1: self.x1.clone(),
            y1: self.y1.clone(),
        }
    }
}

/// The corner at position `i` of a token list; missing or empty tokens
/// default to zero.
pub open spec fn corner_token(tokens: Seq<Seq<char>>, i: int) -> Seq<char> {
    if 0 <= i < tokens.len() && tokens[i].len() > 0 {
        tokens[i]
    } else {
        "0"@
    }
}

/// The four corners a corner string decodes to.
pub open spec fn spec_corners_of(s: Seq<char>) -> (Seq<char>, Seq<char>, Seq<char>, Seq<char>) {
    let t = crate::strings::split_all(s, '@');
    (corner_token(t, 0), corner_token(t, 1), corner_token(t, 2), corner_token(t, 3))
}

/// Serializes the bounding box: each corner token followed by the
/// delimiter.
pub fn corners_to_string(c: &Corners) -> (r: String)
    ensures
        r@ == c.x0@ + seq!['@'] + c.y0@ + seq!['@'] + c.x1@ + seq!['@'] + c.y1@ + seq!['@'],
{
    let mut r = String::new();
    r.append(c.x0.as_str());
    r.append("@");
    r.append(c.y0.as_str());
    r.append("@");
    r.append(c.x1.as_str());
    r.append("@");
    r.append(c.y1.as_str());
    r.append("@");
    proof {
        reveal_strlit("@");
        assert("@"@ =~= seq!['@']);
        assert(r@ =~= c.x0@ + seq!['@'] + c.y0@ + seq!['@'] + c.x1@ + seq!['@'] + c.y1@
            + seq!['@']);
    }
    r
}

fn corner_pick(tokens: &Vec<String>, i: usize) -> (r: String)
    ensures
        r@ == corner_token(tokens.deep_view(), i as int),
{
    proof {
        reveal_strlit("0");
    }
    if i < tokens.len() {
        if !tokens[i].as_str().is_empty() {
            return tokens[i].clone();
        }
    }
    "0".to_owned()
}

/// Parses a corner string positionally: the first four tokens give the
/// corners; missing or empty components default to zero.
pub fn string_to_corners(input: &str) -> (r: Corners)
    ensures
        r.view4() == spec_corners_of(input@),
{
    let tokens = split_all_str(input, '@');
    Corners {
        x0: corner_pick(&tokens, 0),
        y0: corner_pick(&tokens, 1),
        x1: corner_pick(&tokens, 2),
        y1: corner_pick(&tokens, 3),
    }
}

/// One delimited token splits off the front of a keep-empties split.
proof fn lemma_split_all_head(t: Seq<char>, rest: Seq<char>)
    requires
        forall|i: int| 0 <= i < t.len() ==> t[i] != '@',
    ensures
        crate::strings::split_all(t + seq!['@'] + rest, '@') == seq![t] + crate::strings::split_all(
            rest,
            '@',
        ),
{
    let s = t + seq!['@'] + rest;
    assert forall|i: int| 0 <= i < t.len() implies s[i] != '@' by {
        assert(s[i] == t[i]);
    }
    assert(s[t.len() as int] == '@');
    crate::strings::lemma_first_sep_at(s, '@', t.len() as int);
    assert(s.take(t.len() as int) =~= t);
    assert(s.skip(t.len() as int + 1) =~= rest);
}

/// Law (corner round trip): a well-formed bounding box survives
/// serialization and positional decoding unchanged.
pub proof fn lemma_corner_round_trip(a: Seq<char>, b: Seq<char>, c: Seq<char>, d: Seq<char>)
    requires
        valid_id(a),
        valid_id(b),
        valid_id(c),
        valid_id(d),
    ensures
        spec_corners_of(a + seq!['@'] + b + seq!['@'] + c + seq!['@'] + d + seq!['@']) == (
            a,
            b,
            c,
            d,
        ),
{
    let s = a + seq!['@'] + b + seq!['@'] + c + seq!['@'] + d + seq!['@'];
    let s1 = b + seq!['@'] + c + seq!['@'] + d + seq!['@'];
    let s2 = c + seq!['@'] + d + seq!['@'];
    let s3 = d + seq!['@'];
    assert(s =~= a + seq!['@'] + s1);
    assert(s1 =~= b + seq!['@'] + s2);
    assert(s2 =~= c + seq!['@'] + s3);
    assert(s3 =~= d + seq!['@'] + Seq::<char>::empty());
    lemma_split_all_head(a, s1);
    lemma_split_all_head(b, s2);
    lemma_split_all_head(c, s3);
    lemma_split_all_head(d, Seq::<char>::empty());
    crate::strings::lemma_first_sep_at(Seq::<char>::empty(), '@', 0);
    assert(crate::strings::split_all(Seq::<char>::empty(), '@') == seq![Seq::<char>::empty()]);
    let toks = crate::strings::split_all(s, '@');
    assert(toks =~= seq![a] + (seq![b] + (seq![c] + (seq![d] + seq![Seq::<char>::empty()]))));
    assert(toks[0] == a);
    assert(toks[1] == b);
    assert(toks[2] == c);
    assert(toks[3] == d);
}

/// `wf` of an id-set view: duplicate-free, all members valid.
pub open spec fn wf_idset_view(ids: Seq<Seq<char>>) -> bool {
    ids.no_duplicates() && all_valid_ids(ids)
}

proof fn lemma_remove_keeps_wf(ids: Seq<Seq<char>>, i: int)
    requires
        wf_idset_view(ids),
        0 <= i < ids.len(),
    ensures
        wf_idset_view(ids.remove(i)),
{
    let r = ids.remove(i);
    assert forall|k: int| 0 <= k < r.len() implies valid_id(#[trigger] r[k]) by {
        if k < i {
            assert(r[k] == ids[k]);
        } else {
            assert(r[k] == ids[k + 1]);
        }
    }
    assert forall|a: int, b: int| 0 <= a < b < r.len() implies r[a] != r[b] by {
        let a2: int = if a < i {
            a
        } else {
            a + 1
        };
        let b2: int = if b < i {
            b
        } else {
            b + 1
        };
        assert(r[a] == ids[a2]);
        assert(r[b] == ids[b2]);
    }
}

} // verus!
