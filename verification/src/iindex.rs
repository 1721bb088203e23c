//! The inverted index: a verbatim document store plus a token-to-posting-set
//! mapping, with insertion and the two search policies built on the tokenizer.

use vstd::prelude::*;

use crate::tokenizer::SimpleTokenizer;
use crate::tokenizer::tokens_of;
use std::collections::HashSet;

verus! {

/// An in-memory inverted index. `docs` stores every inserted document
/// verbatim, at the position that is the document's ID: IDs start at 0 and
/// grow by 1 per insertion, with no reuse. `core` maps each token that
/// occurs in at least one document to the IDs of the documents containing
/// it.
pub struct InvertedIndex {
    core: Vec<(String, Vec<usize>)>,
    docs: Vec<String>,
}

impl InvertedIndex {
    /// The stored documents in insertion order: entry `d` is the text of the
    /// document with ID `d`.
    pub closed spec fn docs_view(self) -> Seq<Seq<char>> {
        self.docs.deep_view()
    }

    /// How many documents have been inserted.
    pub open spec fn doc_count(self) -> nat {
        self.docs_view().len()
    }

    /// Document `d` exists and its text produces the token `t`.
    pub open spec fn doc_has_token(self, d: int, t: Seq<char>) -> bool {
        0 <= d < self.doc_count() && tokens_of(self.docs_view()[d]).contains(t)
    }

    /// Document `d` produces at least one of the tokens `toks`.
    pub open spec fn matches_any(self, d: int, toks: Seq<Seq<char>>) -> bool {
        exists|k: int| 0 <= k < toks.len() && self.doc_has_token(d, toks[k])
    }

    /// Document `d` produces every one of the tokens `toks`.
    pub open spec fn matches_all(self, d: int, toks: Seq<Seq<char>>) -> bool {
        forall|k: int| 0 <= k < toks.len() ==> self.doc_has_token(d, toks[k])
    }

    /// The mapping entry `e` is exact: its posting list holds an ID `d` if
    /// and only if document `d` produces the token `e.0`.
    spec fn entry_ok(self, e: (String, Vec<usize>)) -> bool {
        forall|d: usize|
            #![trigger e.1@.contains(d)]
            #![trigger self.doc_has_token(d as int, e.0@)]
            e.1@.contains(d) <==> self.doc_has_token(d as int, e.0@)
    }

    /// Some mapping entry has the token `t` as its key.
    spec fn has_key(self, t: Seq<char>) -> bool {
        exists|j: int| 0 <= j < self.core@.len() && (#[trigger] self.core@[j]).0@ == t
    }

    /// Well-formedness: keys are unique, every posting list is exact, and
    /// every token produced by any stored document has an entry.
    pub closed spec fn wf(self) -> bool {
        &&& forall|i: int, j: int|
            0 <= i < j < self.core@.len() ==> (#[trigger] self.core@[i]).0@ != (
            #[trigger] self.core@[j]).0@
        &&& forall|j: int| 0 <= j < self.core@.len() ==> self.entry_ok(#[trigger] self.core@[j])
        &&& forall|d: int, t: Seq<char>| #[trigger] self.doc_has_token(d, t) ==> self.has_key(t)
    }

    /// Entry `e` is exact once the first tokens `done` of the newest
    /// document have been folded in: its list holds an ID `d` iff document
    /// `d` produces the token `e.0`, except that the newest document counts
    /// only for keys among `done`.
    spec fn entry_ok_upto(self, e: (String, Vec<usize>), done: Seq<Seq<char>>) -> bool {
        forall|d: usize|
            #![trigger e.1@.contains(d)]
            #![trigger self.doc_has_token(d as int, e.0@)]
            e.1@.contains(d) <==> (self.doc_has_token(d as int, e.0@) && ((d as int)
                < self.doc_count() - 1 || done.contains(e.0@)))
    }

    /// Every token produced by any stored document has an entry, where the
    /// newest document counts only for tokens among `done`.
    spec fn keys_cover_upto(self, done: Seq<Seq<char>>) -> bool {
        forall|d: int, t: Seq<char>|
            #[trigger] self.doc_has_token(d, t) && (d < self.doc_count() - 1 || done.contains(t))
                ==> self.has_key(t)
    }

    /// An empty index: no documents, no mapping entries, next ID 0.
    pub fn new() -> (r: Self)
        ensures
            r.wf(),
            r.doc_count() == 0,
    {
        Self::default()
    }

    /// Insert a document: store its text under the next free ID and add
    /// that ID to the posting set of every token the text produces,
    /// creating entries for tokens never seen before. Never fails, also for
    /// empty text; inserting the same text twice creates two documents with
    /// two distinct IDs.
    pub fn insert_document(&mut self, doc: &str)
        requires
            old(self).wf(),
        ensures
            final(self).wf(),
            final(self).docs_view() == old(self).docs_view().push(doc@),
            final(self).doc_count() == old(self).doc_count() + 1,
    {
        let tokens = SimpleTokenizer::tokenize(doc);
        let ghost toksd = tokens.deep_view();
        let id = self.docs.len();
        let ghost newid = id as int;
        let text = doc.to_owned();
        self.docs.push(text);
        proof {
            assert(self.docs_view() =~= old(self).docs_view().push(doc@));
            assert(self.docs_view()[newid] == doc@);
            assert(toksd.take(0) =~= Seq::<Seq<char>>::empty());
            assert(self.core@ == old(self).core@);
            assert forall|j: int| 0 <= j < self.core@.len() implies self.entry_ok_upto(
                #[trigger] self.core@[j],
                toksd.take(0),
            ) by {
                let e = self.core@[j];
                assert(old(self).core@[j] == e);
                assert(old(self).entry_ok(e));
                assert forall|d: usize|
                    #![trigger e.1@.contains(d)]
                    #![trigger self.doc_has_token(d as int, e.0@)]
                    e.1@.contains(d) <==> (self.doc_has_token(d as int, e.0@) && ((d as int)
                        < self.doc_count() - 1 || toksd.take(0).contains(e.0@))) by {
                    assert(!toksd.take(0).contains(e.0@));
                    if (d as int) < newid {
                        assert(self.docs_view()[d as int] == old(self).docs_view()[d as int]);
                        assert(self.doc_has_token(d as int, e.0@) == old(self).doc_has_token(
                            d as int,
                            e.0@,
                        ));
                    } else {
                        assert(!old(self).doc_has_token(d as int, e.0@));
                    }
                }
            }
            assert forall|d: int, t: Seq<char>|
                #[trigger] self.doc_has_token(d, t) && (d < self.doc_count() - 1 || toksd.take(
                    0,
                ).contains(t)) implies self.has_key(t) by {
                assert(!toksd.take(0).contains(t));
                assert(self.docs_view()[d] == old(self).docs_view()[d]);
                assert(old(self).doc_has_token(d, t));
                assert(old(self).has_key(t));
                let j = choose|j: int|
                    0 <= j < old(self).core@.len() && (#[trigger] old(self).core@[j]).0@ == t;
                assert(self.core@[j].0@ == t);
            }
        }
        let mut k: usize = 0;
        while k < tokens.len()
            invariant
                toksd == tokens.deep_view(),
                toksd == tokens_of(doc@),
                k <= tokens.len(),
                newid == old(self).docs_view().len(),
                id == newid,
                self.docs_view() == old(self).docs_view().push(doc@),
                self.docs_view()[newid] == doc@,
                forall|i: int, j: int|
                    0 <= i < j < self.core@.len() ==> (#[trigger] self.core@[i]).0@ != (
                    #[trigger] self.core@[j]).0@,
                forall|j: int|
                    0 <= j < self.core@.len() ==> self.entry_ok_upto(
                        #[trigger] self.core@[j],
                        toksd.take(k as int),
                    ),
                self.keys_cover_upto(toksd.take(k as int)),
            decreases tokens.len() - k,
        {
            let ghost prev = *self;
            let ghost done = toksd.take(k as int);
            let ghost done1 = toksd.take(k as int + 1);
            proof {
                toksd.lemma_take_succ_push(k as int);
                toksd.lemma_index_contains(k as int);
                assert(tokens@[k as int]@ == toksd[k as int]);
                assert(done1[done1.len() - 1] == toksd[k as int]);
            }
            let t = &tokens[k];
            match find_key_pos(&self.core, t) {
                Some(j) => {
                    let already = posting_contains(&self.core[j].1, id);
                    if !already {
                        self.core[j].1.push(id);
                    }
                    proof {
                        let jj = j as int;
                        assert(self.docs == prev.docs);
                        assert(self.core@.len() == prev.core@.len());
                        assert(self.core@[jj].0 == prev.core@[jj].0);
                        if !already {
                            assert(self.core@[jj].1@ == prev.core@[jj].1@.push(id));
                        } else {
                            assert(self.core@[jj] == prev.core@[jj]);
                        }
                        assert(forall|i: int|
                            0 <= i < prev.core@.len() && i != jj ==> self.core@[i]
                                == prev.core@[i]);
                        assert forall|j2: int| 0 <= j2 < self.core@.len()
                            implies self.entry_ok_upto(#[trigger] self.core@[j2], done1) by {
                            let e = self.core@[j2];
                            let ep = prev.core@[j2];
                            assert(prev.entry_ok_upto(ep, done));
                            if j2 == jj {
                                assert(e.0@ == toksd[k as int]);
                                assert(done1.contains(e.0@));
                                assert forall|d: usize|
                                    #![trigger e.1@.contains(d)]
                                    #![trigger self.doc_has_token(d as int, e.0@)]
                                    e.1@.contains(d) <==> (self.doc_has_token(d as int, e.0@) && ((
                                    d as int) < self.doc_count() - 1 || done1.contains(e.0@))) by {
                                    lemma_push_contains(ep.1@, id, d);
                                    if self.doc_has_token(d as int, e.0@) {
                                        if (d as int) == newid {
                                            assert(toksd.contains(e.0@));
                                            if already {
                                                assert(ep.1@.contains(id));
                                            }
                                        }
                                    }
                                }
                            } else {
                                assert(e == ep);
                                assert(e.0@ != toksd[k as int]);
                                assert forall|d: usize|
                                    #![trigger e.1@.contains(d)]
                                    #![trigger self.doc_has_token(d as int, e.0@)]
                                    e.1@.contains(d) <==> (self.doc_has_token(d as int, e.0@) && ((
                                    d as int) < self.doc_count() - 1 || done1.contains(e.0@))) by {
                                    lemma_push_contains(done, toksd[k as int], e.0@);
                                }
                            }
                        }
                        assert forall|d: int, tt: Seq<char>|
                            #[trigger] self.doc_has_token(d, tt) && (d < self.doc_count() - 1
                                || done1.contains(tt)) implies self.has_key(tt) by {
                            lemma_push_contains(done, toksd[k as int], tt);
                            if d < self.doc_count() - 1 || done.contains(tt) {
                                assert(prev.doc_has_token(d, tt));
                                assert(prev.has_key(tt));
                                let w = choose|w: int|
                                    0 <= w < prev.core@.len() && (#[trigger] prev.core@[w]).0@
                                        == tt;
                                assert(self.core@[w].0@ == tt);
                            } else {
                                assert(tt == toksd[k as int]);
                                assert(self.core@[jj].0@ == tt);
                            }
                        }
                    }
                },
                None => {
                    let key = t.clone();
                    let mut ids: Vec<usize> = Vec::new();
                    ids.push(id);
                    self.core.push((key, ids));
                    proof {
                        let ghost entry = self.core@[self.core@.len() - 1];
                        assert(self.docs == prev.docs);
                        assert(self.core@ =~= prev.core@.push(entry));
                        assert(entry.0@ == toksd[k as int]);
                        assert(entry.1@ =~= seq![id]);
                        assert(forall|i: int|
                            0 <= i < prev.core@.len() ==> self.core@[i] == prev.core@[i]);
                        assert(forall|i: int|
                            0 <= i < prev.core@.len() ==> (#[trigger] prev.core@[i]).0@
                                != toksd[k as int]);
                        assert forall|j2: int| 0 <= j2 < self.core@.len()
                            implies self.entry_ok_upto(#[trigger] self.core@[j2], done1) by {
                            let e = self.core@[j2];
                            if j2 < prev.core@.len() {
                                assert(prev.entry_ok_upto(e, done));
                                assert(e.0@ != toksd[k as int]);
                                assert forall|d: usize|
                                    #![trigger e.1@.contains(d)]
                                    #![trigger self.doc_has_token(d as int, e.0@)]
                                    e.1@.contains(d) <==> (self.doc_has_token(d as int, e.0@) && ((
                                    d as int) < self.doc_count() - 1 || done1.contains(e.0@))) by {
                                    lemma_push_contains(done, toksd[k as int], e.0@);
                                }
                            } else {
                                assert(e == entry);
                                assert(done1.contains(e.0@));
                                assert forall|d: usize|
                                    #![trigger e.1@.contains(d)]
                                    #![trigger self.doc_has_token(d as int, e.0@)]
                                    e.1@.contains(d) <==> (self.doc_has_token(d as int, e.0@) && ((
                                    d as int) < self.doc_count() - 1 || done1.contains(e.0@))) by {
                                    assert(e.1@.contains(d) <==> d == id) by {
                                        if e.1@.contains(d) {
                                            let w = e.1@.lemma_contains_to_index(d);
                                            assert(e.1@[w] == d);
                                        }
                                        if d == id {
                                            assert(e.1@[0] == d);
                                            assert(e.1@.contains(d));
                                        }
                                    }
                                    if self.doc_has_token(d as int, e.0@) && (d as int) < newid {
                                        assert(prev.doc_has_token(d as int, e.0@));
                                        assert(prev.has_key(e.0@));
                                        let w = choose|w: int|
                                            0 <= w < prev.core@.len() && (
                                            #[trigger] prev.core@[w]).0@ == e.0@;
                                        assert(false);
                                    }
                                    if d == id {
                                        assert(toksd.contains(e.0@));
                                        assert(self.doc_has_token(newid, e.0@));
                                    }
                                }
                            }
                        }
                        assert forall|i: int, j2: int| 0 <= i < j2 < self.core@.len() implies (
                        #[trigger] self.core@[i]).0@ != (#[trigger] self.core@[j2]).0@ by {
                            if j2 == self.core@.len() - 1 {
                                assert(self.core@[i] == prev.core@[i]);
                            }
                        }
                        assert forall|d: int, tt: Seq<char>|
                            #[trigger] self.doc_has_token(d, tt) && (d < self.doc_count() - 1
                                || done1.contains(tt)) implies self.has_key(tt) by {
                            lemma_push_contains(done, toksd[k as int], tt);
                            if d < self.doc_count() - 1 || done.contains(tt) {
                                assert(prev.doc_has_token(d, tt));
                                assert(prev.has_key(tt));
                                let w = choose|w: int|
                                    0 <= w < prev.core@.len() && (#[trigger] prev.core@[w]).0@
                                        == tt;
                                assert(self.core@[w].0@ == tt);
                            } else {
                                assert(tt == toksd[k as int]);
                                assert(entry.0@ == tt);
                                assert(self.core@[self.core@.len() - 1].0@ == tt);
                            }
                        }
                    }
                },
            }
            k += 1;
        }
        proof {
            assert(toksd.take(tokens.len() as int) =~= toksd);
            assert forall|j: int| 0 <= j < self.core@.len() implies self.entry_ok(
                #[trigger] self.core@[j],
            ) by {
                let e = self.core@[j];
                assert(self.entry_ok_upto(e, toksd));
                assert forall|d: usize|
                    #![trigger e.1@.contains(d)]
                    #![trigger self.doc_has_token(d as int, e.0@)]
                    e.1@.contains(d) <==> self.doc_has_token(d as int, e.0@) by {
                    if self.doc_has_token(d as int, e.0@) && (d as int) == newid {
                        assert(toksd.contains(e.0@));
                    }
                }
            }
            assert forall|d: int, t: Seq<char>| #[trigger] self.doc_has_token(d, t)
                implies self.has_key(t) by {
                if d == newid {
                    assert(toksd.contains(t));
                }
                assert(self.doc_has_token(d, t) && (d < self.doc_count() - 1 || toksd.contains(
                    t,
                )));
            }
        }
    }

    /// Get a document via its ID. Absence (an ID never assigned) is a normal
    /// result, not an error: exactly the IDs below `doc_count` are present.
    pub fn get_document(&self, id: usize) -> (r: Option<&String>)
        ensures
            match r {
                Some(text) => id < self.doc_count() && text@ == self.docs_view()[id as int],
                None => id >= self.doc_count(),
            },
    {
        if id < self.docs.len() {
            let text = &self.docs[id];
            proof {
                assert(text@ == self.docs_view()[id as int]);
            }
            Some(text)
        } else {
            None
        }
    }
}

/// The position of the entry of `core` whose key equals `t`, if any.
fn find_key_pos(core: &Vec<(String, Vec<usize>)>, t: &String) -> (r: Option<usize>)
    ensures
        match r {
            Some(j) => j < core@.len() && core@[j as int].0@ == t@,
            None => forall|j: int| 0 <= j < core@.len() ==> (#[trigger] core@[j]).0@ != t@,
        },
{
    let mut j: usize = 0;
    while j < core.len()
        invariant
            j <= core@.len(),
            forall|q: int| 0 <= q < j ==> (#[trigger] core@[q]).0@ != t@,
        decreases core@.len() - j,
    {
        if core[j].0 == *t {
            return Some(j);
        }
        j += 1;
    }
    None
}

/// Whether the posting list `ids` holds the ID `x`.
fn posting_contains(ids: &Vec<usize>, x: usize) -> (r: bool)
    ensures
        r == ids@.contains(x),
{
    let mut q: usize = 0;
    while q < ids.len()
        invariant
            q <= ids@.len(),
            forall|p: int| 0 <= p < q ==> ids@[p] != x,
        decreases ids@.len() - q,
    {
        if ids[q] == x {
            return true;
        }
        q += 1;
    }
    false
}

/// A sequence holds `d` after a push exactly when it held `d` before or `d`
/// is the pushed element.
proof fn lemma_push_contains<A>(s: Seq<A>, x: A, d: A)
    ensures
        s.push(x).contains(d) <==> (s.contains(d) || d == x),
{
    if s.push(x).contains(d) {
        let i = s.push(x).lemma_contains_to_index(d);
        if i < s.len() {
            assert(s[i] == d);
        }
    }
    if s.contains(d) {
        let i = s.lemma_contains_to_index(d);
        assert(s.push(x)[i] == d);
    }
    if d == x {
        assert(s.push(x)[s.len() as int] == d);
    }
}

/// A copy of the posting list `ids`.
fn copy_posting(ids: &Vec<usize>) -> (r: Vec<usize>)
    ensures
        r@ == ids@,
{
    let mut out: Vec<usize> = Vec::new();
    let mut p: usize = 0;
    while p < ids.len()
        invariant
            p <= ids@.len(),
            out@ == ids@.take(p as int),
        decreases ids@.len() - p,
    {
        out.push(ids[p]);
        proof {
            assert(out@ =~= ids@.take(p as int + 1));
        }
        p += 1;
    }
    proof {
        assert(ids@.take(ids@.len() as int) =~= ids@);
    }
    out
}

/// The IDs on `cands` that also appear on `keep`.
fn filter_members(cands: &Vec<usize>, keep: &Vec<usize>) -> (r: Vec<usize>)
    ensures
        forall|d: usize| #[trigger] r@.contains(d) <==> (cands@.contains(d) && keep@.contains(d)),
{
    let mut out: Vec<usize> = Vec::new();
    let mut p: usize = 0;
    while p < cands.len()
        invariant
            p <= cands@.len(),
            forall|d: usize| #[trigger]
                out@.contains(d) <==> (cands@.take(p as int).contains(d) && keep@.contains(d)),
        decreases cands@.len() - p,
    {
        let ghost pre = out@;
        let d = cands[p];
        let keeps = posting_contains(keep, d);
        if keeps {
            out.push(d);
        }
        proof {
            cands@.lemma_take_succ_push(p as int);
            assert forall|x: usize| #[trigger]
                out@.contains(x) <==> (cands@.take(p as int + 1).contains(x)
                    && keep@.contains(x)) by {
                lemma_push_contains(pre, d, x);
                lemma_push_contains(cands@.take(p as int), cands@[p as int], x);
                if keeps {
                    assert(out@ == pre.push(d));
                } else {
                    assert(out@ == pre);
                    if x == d {
                        assert(!keep@.contains(x));
                    }
                }
            }
        }
        p += 1;
    }
    proof {
        assert(cands@.take(cands@.len() as int) =~= cands@);
    }
    out
}

impl InvertedIndex {
    /// The posting list of the token `t`: `Some` exactly when some document
    /// produces `t`, and then the list holds precisely those documents' IDs.
    fn find_posting(&self, t: &String) -> (r: Option<&Vec<usize>>)
        requires
            self.wf(),
        ensures
            match r {
                Some(ids) => forall|d: usize|
                    #![trigger ids@.contains(d)]
                    #![trigger self.doc_has_token(d as int, t@)]
                    ids@.contains(d) <==> self.doc_has_token(d as int, t@),
                None => forall|d: int| !self.doc_has_token(d, t@),
            },
    {
        match find_key_pos(&self.core, t) {
            Some(j) => {
                let ids = &self.core[j].1;
                proof {
                    assert(self.entry_ok(self.core@[j as int]));
                }
                Some(ids)
            },
            None => {
                proof {
                    assert forall|d: int| !self.doc_has_token(d, t@) by {
                        if self.doc_has_token(d, t@) {
                            assert(self.has_key(t@));
                            let j = choose|j: int|
                                0 <= j < self.core@.len() && (#[trigger] self.core@[j]).0@ == t@;
                            assert(false);
                        }
                    }
                }
                None
            },
        }
    }

    /// An OR search: the IDs of the documents that produce at least one of
    /// the query's tokens. A query with no recognized token yields the empty
    /// set.
    pub fn search_or(&self, query: &str) -> (r: HashSet<usize>)
        requires
            self.wf(),
        ensures
            forall|d: usize|
                #[trigger] r@.contains(d) <==> self.matches_any(d as int, tokens_of(query@)),
    {
        let toks = SimpleTokenizer::tokenize(query);
        let ghost toksd = toks.deep_view();
        let mut hits: HashSet<usize> = HashSet::new();
        let mut k: usize = 0;
        while k < toks.len()
            invariant
                self.wf(),
                toksd == toks.deep_view(),
                toksd == tokens_of(query@),
                k <= toks.len(),
                forall|d: usize|
                    #[trigger] hits@.contains(d) <==> self.matches_any(
                        d as int,
                        toksd.take(k as int),
                    ),
            decreases toks.len() - k,
        {
            let ghost done = toksd.take(k as int);
            let ghost done1 = toksd.take(k as int + 1);
            proof {
                toksd.lemma_take_succ_push(k as int);
                assert(toks@[k as int]@ == toksd[k as int]);
            }
            match self.find_posting(&toks[k]) {
                Some(ids) => {
                    let mut p: usize = 0;
                    while p < ids.len()
                        invariant
                            self.wf(),
                            toksd == tokens_of(query@),
                            k < toks.len(),
                            toksd == toks.deep_view(),
                            toks@[k as int]@ == toksd[k as int],
                            done == toksd.take(k as int),
                            done1 == toksd.take(k as int + 1),
                            done1 =~= done.push(toksd[k as int]),
                            forall|d: usize|
                                #![trigger ids@.contains(d)]
                                ids@.contains(d) <==> self.doc_has_token(
                                    d as int,
                                    toksd[k as int],
                                ),
                            p <= ids@.len(),
                            forall|d: usize|
                                #[trigger] hits@.contains(d) <==> (self.matches_any(d as int, done)
                                    || exists|q: int| 0 <= q < p && ids@[q] == d),
                        decreases ids@.len() - p,
                    {
                        let d = ids[p];
                        hits.insert(d);
                        p += 1;
                    }
                    proof {
                        assert forall|d: usize| #[trigger]
                            hits@.contains(d) <==> self.matches_any(d as int, done1) by {
                            if hits@.contains(d) {
                                if self.matches_any(d as int, done) {
                                    let q = choose|q: int|
                                        0 <= q < done.len() && self.doc_has_token(
                                            d as int,
                                            done[q],
                                        );
                                    assert(done1[q] == done[q]);
                                    assert(self.matches_any(d as int, done1));
                                } else {
                                    let q = choose|q: int| 0 <= q < ids@.len() && ids@[q] == d;
                                    assert(ids@.contains(d));
                                    assert(done1[done1.len() - 1] == toksd[k as int]);
                                    assert(self.matches_any(d as int, done1));
                                }
                            }
                            if self.matches_any(d as int, done1) {
                                let q = choose|q: int|
                                    0 <= q < done1.len() && self.doc_has_token(d as int, done1[q]);
                                if q < done.len() {
                                    assert(done[q] == done1[q]);
                                    assert(self.matches_any(d as int, done));
                                } else {
                                    assert(done1[q] == toksd[k as int]);
                                    assert(ids@.contains(d));
                                    let w = ids@.lemma_contains_to_index(d);
                                }
                            }
                        }
                    }
                },
                None => {
                    proof {
                        assert forall|d: usize| #[trigger]
                            hits@.contains(d) <==> self.matches_any(d as int, done1) by {
                            if self.matches_any(d as int, done1) {
                                let q = choose|q: int|
                                    0 <= q < done1.len() && self.doc_has_token(d as int, done1[q]);
                                if q < done.len() {
                                    assert(done[q] == done1[q]);
                                    assert(self.matches_any(d as int, done));
                                } else {
                                    assert(done1[q] == toksd[k as int]);
                                    assert(!self.doc_has_token(d as int, toksd[k as int]));
                                }
                            }
                            if self.matches_any(d as int, done) {
                                let q = choose|q: int|
                                    0 <= q < done.len() && self.doc_has_token(d as int, done[q]);
                                assert(done1[q] == done[q]);
                                assert(self.matches_any(d as int, done1));
                            }
                        }
                    }
                },
            }
            k += 1;
        }
        proof {
            assert(toksd.take(toks.len() as int) =~= toksd);
        }
        hits
    }

    /// An AND search: the IDs of the documents that produce every one of the
    /// query's tokens. A query with no recognized token yields the empty set
    /// by design, and so does a query with a token that no document
    /// produces.
    pub fn search_and(&self, query: &str) -> (r: HashSet<usize>)
        requires
            self.wf(),
        ensures
            tokens_of(query@).len() == 0 ==> r@ == Set::<usize>::empty(),
            tokens_of(query@).len() > 0 ==> forall|d: usize|
                #[trigger] r@.contains(d) <==> self.matches_all(d as int, tokens_of(query@)),
    {
        let toks = SimpleTokenizer::tokenize(query);
        let ghost toksd = toks.deep_view();
        let mut result: HashSet<usize> = HashSet::new();
        if toks.len() == 0 {
            return result;
        }
        proof {
            assert(toks@[0]@ == toksd[0]);
        }
        let first = match self.find_posting(&toks[0]) {
            None => {
                proof {
                    assert forall|d: usize| !self.matches_all(d as int, toksd) by {
                        assert(!self.doc_has_token(d as int, toksd[0]));
                    }
                }
                return result;
            },
            Some(ids) => ids,
        };
        let mut cands = copy_posting(first);
        proof {
            assert forall|d: usize| #[trigger]
                cands@.contains(d) <==> self.matches_all(d as int, toksd.take(1)) by {
                assert(toksd.take(1)[0] == toksd[0]);
                if cands@.contains(d) {
                    assert forall|q: int| 0 <= q < 1 implies self.doc_has_token(
                        d as int,
                        #[trigger] toksd.take(1)[q],
                    ) by {
                        assert(toksd.take(1)[q] == toksd[0]);
                    }
                }
                if self.matches_all(d as int, toksd.take(1)) {
                    assert(self.doc_has_token(d as int, toksd.take(1)[0]));
                }
            }
        }
        let mut k: usize = 1;
        while k < toks.len()
            invariant
                self.wf(),
                toksd == toks.deep_view(),
                toksd == tokens_of(query@),
                1 <= k <= toks.len(),
                forall|d: usize| #[trigger]
                    cands@.contains(d) <==> self.matches_all(d as int, toksd.take(k as int)),
            decreases toks.len() - k,
        {
            let ghost done = toksd.take(k as int);
            let ghost done1 = toksd.take(k as int + 1);
            proof {
                toksd.lemma_take_succ_push(k as int);
                assert(toks@[k as int]@ == toksd[k as int]);
            }
            match self.find_posting(&toks[k]) {
                None => {
                    proof {
                        assert forall|d: usize| !self.matches_all(d as int, toksd) by {
                            assert(!self.doc_has_token(d as int, toksd[k as int]));
                        }
                    }
                    let empty: HashSet<usize> = HashSet::new();
                    return empty;
                },
                Some(ids) => {
                    let next = filter_members(&cands, ids);
                    cands = next;
                    proof {
                        assert forall|d: usize| #[trigger]
                            cands@.contains(d) <==> self.matches_all(d as int, done1) by {
                            if cands@.contains(d) {
                                assert(self.matches_all(d as int, done));
                                assert(ids@.contains(d));
                                assert(self.doc_has_token(d as int, toksd[k as int]));
                                assert forall|q: int| 0 <= q < done1.len()
                                    implies self.doc_has_token(d as int, #[trigger] done1[q]) by {
                                    if q < done.len() {
                                        assert(done1[q] == done[q]);
                                    } else {
                                        assert(done1[q] == toksd[k as int]);
                                    }
                                }
                            }
                            if self.matches_all(d as int, done1) {
                                assert forall|q: int| 0 <= q < done.len()
                                    implies self.doc_has_token(d as int, #[trigger] done[q]) by {
                                    assert(done1[q] == done[q]);
                                }
                                assert(done1[done1.len() - 1] == toksd[k as int]);
                                assert(self.doc_has_token(d as int, toksd[k as int]));
                                assert(ids@.contains(d));
                            }
                        }
                    }
                },
            }
            k += 1;
        }
        proof {
            assert(toksd.take(toks.len() as int) =~= toksd);
        }
        let mut p: usize = 0;
        while p < cands.len()
            invariant
                p <= cands@.len(),
                toksd == tokens_of(query@),
                toksd.len() > 0,
                forall|d: usize| #[trigger]
                    cands@.contains(d) <==> self.matches_all(d as int, toksd),
                forall|d: usize| #[trigger]
                    result@.contains(d) <==> exists|q: int| 0 <= q < p && cands@[q] == d,
            decreases cands@.len() - p,
        {
            result.insert(cands[p]);
            p += 1;
        }
        proof {
            assert forall|d: usize| #[trigger]
                result@.contains(d) <==> self.matches_all(d as int, toksd) by {
                if result@.contains(d) {
                    let q = choose|q: int| 0 <= q < cands@.len() && cands@[q] == d;
                    assert(cands@.contains(d));
                }
                if self.matches_all(d as int, toksd) {
                    assert(cands@.contains(d));
                    let i = cands@.lemma_contains_to_index(d);
                }
            }
        }
        result
    }
}

/// Inserted documents stay at their own IDs regardless of later insertions:
/// after the document store `pre` grows by `d1` and then by `d2`, the ID
/// assigned to `d1` still holds exactly `d1`, the ID assigned to `d2` holds
/// exactly `d2`, and every earlier document is unchanged. Together with
/// `insert_document` (which pushes onto `docs_view`) and `get_document`
/// (which returns `docs_view` at the ID), lookups at distinct IDs return
/// their own documents, in any query order.
pub proof fn lemma_ids_keep_their_documents(pre: Seq<Seq<char>>, d1: Seq<char>, d2: Seq<char>)
    ensures
        pre.push(d1).push(d2)[pre.len() as int] == d1,
        pre.push(d1).push(d2)[pre.len() as int + 1] == d2,
        forall|i: int| 0 <= i < pre.len() ==> pre.push(d1).push(d2)[i] == pre[i],
{
}

/// AND results are a subset of OR results: for one query, any result set
/// meeting `search_and`'s contract is contained in any result set meeting
/// `search_or`'s contract, since a document with every token of a nonempty
/// query has at least one of them, and an empty token list gives an empty
/// AND result.
pub proof fn lemma_and_subset_of_or(
    index: InvertedIndex,
    q: Seq<char>,
    r_and: Set<usize>,
    r_or: Set<usize>,
)
    requires
        forall|d: usize|
            #[trigger] r_or.contains(d) <==> index.matches_any(d as int, tokens_of(q)),
        tokens_of(q).len() == 0 ==> r_and == Set::<usize>::empty(),
        tokens_of(q).len() > 0 ==> forall|d: usize|
            #[trigger] r_and.contains(d) <==> index.matches_all(d as int, tokens_of(q)),
    ensures
        r_and.subset_of(r_or),
{
    let toks = tokens_of(q);
    assert forall|d: usize| r_and.contains(d) implies r_or.contains(d) by {
        if toks.len() > 0 {
            assert(index.matches_all(d as int, toks));
            assert(index.doc_has_token(d as int, toks[0]));
            assert(index.matches_any(d as int, toks));
        }
    }
}

/// A query with a token that no stored document produces has an empty AND
/// result: intersecting with that token's empty posting set leaves nothing.
pub proof fn lemma_absent_token_empties_and(
    index: InvertedIndex,
    q: Seq<char>,
    t: Seq<char>,
    r_and: Set<usize>,
)
    requires
        tokens_of(q).contains(t),
        forall|d: int| !index.doc_has_token(d, t),
        tokens_of(q).len() == 0 ==> r_and == Set::<usize>::empty(),
        tokens_of(q).len() > 0 ==> forall|d: usize|
            #[trigger] r_and.contains(d) <==> index.matches_all(d as int, tokens_of(q)),
    ensures
        r_and == Set::<usize>::empty(),
{
    let toks = tokens_of(q);
    if toks.len() > 0 {
        assert forall|d: usize| !r_and.contains(d) by {
            if r_and.contains(d) {
                let w = toks.lemma_contains_to_index(t);
                assert(index.doc_has_token(d as int, toks[w]));
            }
        }
        assert(r_and =~= Set::<usize>::empty());
    }
}

impl Default for InvertedIndex {
    fn default() -> (r: Self)
        ensures
            r.wf(),
            r.doc_count() == 0,
    {
        let r = InvertedIndex { core: Vec::new(), docs: Vec::new() };
        proof {
            assert(r.docs_view() =~= Seq::<Seq<char>>::empty());
        }
        r
    }
}

} // verus!
