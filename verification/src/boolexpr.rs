//! The boolean query language: AND, OR and NOT over keywords, with
//! parentheses, and its evaluation over per-keyword result sets.
//!
//! `NOT` evaluates to the empty set: without a universe of file identifiers
//! there is no complement to take.
use vstd::prelude::*;

use crate::poly::{bytes_eq, pv, scalar_clone};

verus! {

/// A boolean expression over keywords.
pub enum BooleanExpr {
    /// One keyword's result set.
    Keyword(Vec<u8>),
    /// The intersection of the two sides.
    And(Box<BooleanExpr>, Box<BooleanExpr>),
    /// The union of the two sides.
    Or(Box<BooleanExpr>, Box<BooleanExpr>),
    /// The complement; it evaluates to the empty set, as no universe is
    /// known.
    Not(Box<BooleanExpr>),
}

/// The result list of the first binding of a keyword.
pub open spec fn lookup_kw(results: Seq<(Seq<u8>, Seq<Seq<u8>>)>, kw: Seq<u8>) -> Seq<Seq<u8>>
    decreases results.len(),
{
    if results.len() == 0 {
        Seq::empty()
    } else if results[0].0 == kw {
        results[0].1
    } else {
        lookup_kw(results.drop_first(), kw)
    }
}

/// Whether a file identifier belongs to the expression's value over the
/// given per-keyword results.
pub open spec fn eval_member(
    e: BooleanExpr,
    results: Seq<(Seq<u8>, Seq<Seq<u8>>)>,
    fid: Seq<u8>,
) -> bool
    decreases e,
{
    match e {
        BooleanExpr::Keyword(kw) => lookup_kw(results, kw@).contains(fid),
        BooleanExpr::And(l, r) => eval_member(*l, results, fid) && eval_member(*r, results, fid),
        BooleanExpr::Or(l, r) => eval_member(*l, results, fid) || eval_member(*r, results, fid),
        BooleanExpr::Not(_) => false,
    }
}

/// Whether a keyword occurs in the expression.
pub open spec fn kw_in_expr(e: BooleanExpr, kw: Seq<u8>) -> bool
    decreases e,
{
    match e {
        BooleanExpr::Keyword(k) => k@ == kw,
        BooleanExpr::And(l, r) => kw_in_expr(*l, kw) || kw_in_expr(*r, kw),
        BooleanExpr::Or(l, r) => kw_in_expr(*l, kw) || kw_in_expr(*r, kw),
        BooleanExpr::Not(inner) => kw_in_expr(*inner, kw),
    }
}

/// The parenthesized text of an expression.
pub open spec fn expr_text_of(e: BooleanExpr) -> Seq<u8>
    decreases e,
{
    match e {
        BooleanExpr::Keyword(k) => k@,
        BooleanExpr::And(l, r) => seq![40u8] + expr_text_of(*l) + seq![32u8, 65u8, 78u8, 68u8, 32u8]
            + expr_text_of(*r) + seq![41u8],
        BooleanExpr::Or(l, r) => seq![40u8] + expr_text_of(*l) + seq![32u8, 79u8, 82u8, 32u8]
            + expr_text_of(*r) + seq![41u8],
        BooleanExpr::Not(inner) => seq![40u8, 78u8, 79u8, 84u8, 32u8] + expr_text_of(*inner)
            + seq![41u8],
    }
}

/// Whether a byte is lexer whitespace.
pub open spec fn space_byte(b: u8) -> bool {
    b == 32 || b == 9 || b == 10 || b == 13
}

/// Whether a byte can stand in an identifier.
pub open spec fn ident_byte(b: u8) -> bool {
    (48 <= b && b <= 57) || (65 <= b && b <= 90) || (97 <= b && b <= 122) || b == 95 || b == 45
        || b >= 128
}

/// The ASCII uppercase image of a word.
pub open spec fn upper_of(w: Seq<u8>) -> Seq<u8> {
    Seq::new(
        w.len(),
        |i: int|
            if 97 <= w[i] && w[i] <= 122 {
                (w[i] - 32) as u8
            } else {
                w[i]
            },
    )
}

/// Whether a word reads as one of the three operators, case-insensitively.
pub open spec fn op_word(w: Seq<u8>) -> bool {
    ||| upper_of(w) == seq![65u8, 78u8, 68u8]
    ||| upper_of(w) == seq![79u8, 82u8]
    ||| upper_of(w) == seq![78u8, 79u8, 84u8]
}

/// Whether the input is one identifier word between whitespace, spanning
/// `[a, b)`.
pub open spec fn single_word_at(input: Seq<u8>, a: int, b: int) -> bool {
    &&& 0 <= a < b <= input.len()
    &&& (forall|k: int| 0 <= k < a ==> space_byte(#[trigger] input[k]))
    &&& (forall|k: int| a <= k < b ==> ident_byte(#[trigger] input[k]))
    &&& (forall|k: int| b <= k < input.len() ==> space_byte(#[trigger] input[k]))
    &&& !op_word(input.subrange(a, b))
}

/// Whether a keyword is a non-empty contiguous piece of the input text.
pub open spec fn ident_substring_of(kw: Seq<u8>, input: Seq<u8>) -> bool {
    exists|a: int, b: int|
        0 <= a <= b <= input.len() && kw.len() >= 1 && kw == #[trigger] input.subrange(a, b)
}

/// The view of a keyword-results list.
pub open spec fn results_view(results: Seq<(Vec<u8>, Vec<Vec<u8>>)>) -> Seq<(Seq<u8>, Seq<Seq<u8>>)> {
    Seq::new(results.len(), |i: int| (results[i].0@, pv(results[i].1@)))
}

/// Finds a keyword's result list.
fn find_results<'a>(results: &'a Vec<(Vec<u8>, Vec<Vec<u8>>)>, kw: &Vec<u8>) -> (r: Option<
    &'a Vec<Vec<u8>>,
>)
    ensures
        r is Some ==> pv(r->Some_0@) == lookup_kw(results_view(results@), kw@),
        r is None ==> lookup_kw(results_view(results@), kw@) == Seq::<Seq<u8>>::empty(),
{
    let n = results.len();
    let mut i: usize = 0;
    proof {
        assert(results_view(results@).skip(0) =~= results_view(results@));
    }
    while i < n
        invariant
            n == results@.len(),
            0 <= i <= n,
            lookup_kw(results_view(results@), kw@) == lookup_kw(
                results_view(results@).skip(i as int),
                kw@,
            ),
        decreases n - i,
    {
        proof {
            assert(results_view(results@).skip(i as int)[0] == results_view(results@)[i as int]);
            assert(results_view(results@).skip(i as int).drop_first() =~= results_view(
                results@,
            ).skip(i + 1));
        }
        if bytes_eq(&results[i].0, kw) {
            return Some(&results[i].1);
        }
        i += 1;
    }
    proof {
        assert(results_view(results@).skip(n as int) =~= Seq::<(Seq<u8>, Seq<Seq<u8>>)>::empty());
    }
    None
}

/// The distinct keywords of a request, first occurrences kept in order:
/// what a driver fans out one call per keyword over.
pub fn dedup_keywords(kws: &Vec<Vec<u8>>) -> (r: Vec<Vec<u8>>)
    ensures
        pv(r@).no_duplicates(),
        forall|x: Seq<u8>| #[trigger] pv(r@).contains(x) <==> pv(kws@).contains(x),
{
    let mut out: Vec<Vec<u8>> = Vec::new();
    proof {
        assert(pv(out@) =~= Seq::<Seq<u8>>::empty());
    }
    push_new(&mut out, kws);
    out
}

/// Appends to `out` the entries of `src` that it does not hold yet.
fn push_new(out: &mut Vec<Vec<u8>>, src: &Vec<Vec<u8>>)
    requires
        pv(old(out)@).no_duplicates(),
    ensures
        pv(final(out)@).no_duplicates(),
        forall|x: Seq<u8>|
            #[trigger] pv(final(out)@).contains(x) <==> pv(old(out)@).contains(x) || pv(
                src@,
            ).contains(x),
{
    let n = src.len();
    let mut i: usize = 0;
    while i < n
        invariant
            n == src@.len(),
            0 <= i <= n,
            pv(out@).no_duplicates(),
            forall|x: Seq<u8>|
                pv(out@).contains(x) <==> pv(old(out)@).contains(x) || pv(src@).take(
                    i as int,
                ).contains(x),
        decreases n - i,
    {
        let ghost before = pv(out@);
        if !crate::mpt_utils::tokens_contain(out, &src[i]) {
            out.push(scalar_clone(&src[i]));
            proof {
                assert(pv(out@) =~= before.push(pv(src@)[i as int]));
                lemma_push_no_dups(before, pv(src@)[i as int]);
                lemma_push_contains(before, pv(src@)[i as int]);
            }
        }
        proof {
            lemma_take_step(pv(src@), i as int);
            assert forall|x: Seq<u8>|
                pv(out@).contains(x) <==> pv(old(out)@).contains(x) || pv(src@).take(
                    i + 1,
                ).contains(x) by {
                assert(pv(src@).take(i + 1).contains(x) <==> pv(src@).take(i as int).contains(x)
                    || x == pv(src@)[i as int]);
                assert(before.contains(x) <==> pv(old(out)@).contains(x) || pv(src@).take(
                    i as int,
                ).contains(x));
            }
        }
        i += 1;
    }
    proof {
        assert(pv(src@).take(n as int) =~= pv(src@));
    }
}

proof fn lemma_not_contains_empty(x: Seq<u8>)
    ensures
        !Seq::<Seq<u8>>::empty().contains(x),
{
    if Seq::<Seq<u8>>::empty().contains(x) {
        let w = choose|w: int|
            0 <= w < Seq::<Seq<u8>>::empty().len() && (#[trigger] Seq::<Seq<u8>>::empty()[w]) == x;
        assert(false);
    }
}

proof fn lemma_push_contains(s: Seq<Seq<u8>>, v: Seq<u8>)
    ensures
        forall|x: Seq<u8>| s.push(v).contains(x) <==> s.contains(x) || x == v,
{
    assert forall|x: Seq<u8>| #[trigger]
        s.push(v).contains(x) implies s.contains(x) || x == v by {
        let w = choose|w: int| 0 <= w < s.push(v).len() && (#[trigger] s.push(v)[w]) == x;
        if w < s.len() {
            assert(s[w] == x);
        }
    }
    assert forall|x: Seq<u8>| s.contains(x) || x == v implies #[trigger] s.push(v).contains(
        x,
    ) by {
        if s.contains(x) {
            let w = choose|w: int| 0 <= w < s.len() && (#[trigger] s[w]) == x;
            assert(s.push(v)[w] == x);
        } else {
            assert(s.push(v)[s.len() as int] == x);
        }
    }
}

proof fn lemma_push_no_dups(s: Seq<Seq<u8>>, x: Seq<u8>)
    requires
        s.no_duplicates(),
        !s.contains(x),
    ensures
        s.push(x).no_duplicates(),
{
    let t = s.push(x);
    assert forall|p: int, q: int| 0 <= p < q < t.len() implies t[p] != t[q] by {
        if q == s.len() {
            if t[p] == t[q] {
                assert(s.contains(x)) by {
                    assert(s[p] == x);
                }
            }
        }
    }
}

impl BooleanExpr {
    /// The keywords the expression mentions, each once.
    pub fn get_keywords(&self) -> (r: Vec<Vec<u8>>)
        ensures
            pv(r@).no_duplicates(),
            forall|kw: Seq<u8>| #[trigger] pv(r@).contains(kw) <==> kw_in_expr(*self, kw),
        decreases *self,
    {
        match self {
            BooleanExpr::Keyword(kw) => {
                let mut out: Vec<Vec<u8>> = Vec::new();
                out.push(scalar_clone(kw));
                proof {
                    assert(pv(out@) =~= Seq::<Seq<u8>>::empty().push(kw@));
                    lemma_push_contains(Seq::<Seq<u8>>::empty(), kw@);
                    assert(pv(out@).no_duplicates());
                    assert forall|k: Seq<u8>| pv(out@).contains(k) <==> kw_in_expr(*self, k) by {
                        lemma_not_contains_empty(k);
                        assert(pv(out@).contains(k) <==> Seq::<Seq<u8>>::empty().contains(k) || k
                            == kw@);
                    }
                }
                out
            },
            BooleanExpr::And(l, r) => {
                let mut out = l.get_keywords();
                let ghost lv = pv(out@);
                let right = r.get_keywords();
                push_new(&mut out, &right);
                proof {
                    assert forall|k: Seq<u8>| pv(out@).contains(k) <==> kw_in_expr(*self, k) by {
                        assert(pv(out@).contains(k) <==> lv.contains(k) || pv(right@).contains(k));
                    }
                }
                out
            },
            BooleanExpr::Or(l, r) => {
                let mut out = l.get_keywords();
                let ghost lv = pv(out@);
                let right = r.get_keywords();
                push_new(&mut out, &right);
                proof {
                    assert forall|k: Seq<u8>| pv(out@).contains(k) <==> kw_in_expr(*self, k) by {
                        assert(pv(out@).contains(k) <==> lv.contains(k) || pv(right@).contains(k));
                    }
                }
                out
            },
            BooleanExpr::Not(inner) => {
                let out = inner.get_keywords();
                proof {
                    assert forall|k: Seq<u8>| pv(out@).contains(k) <==> kw_in_expr(*self, k) by {
                        assert(pv(out@).contains(k) <==> kw_in_expr(**inner, k));
                    }
                }
                out
            },
        }
    }

    /// Evaluates the expression over per-keyword result lists: the file
    /// identifiers in its value, each once.
    pub fn evaluate(&self, keyword_results: &Vec<(Vec<u8>, Vec<Vec<u8>>)>) -> (r: Vec<Vec<u8>>)
        ensures
            pv(r@).no_duplicates(),
            forall|fid: Seq<u8>|
                #[trigger] pv(r@).contains(fid) <==> eval_member(
                    *self,
                    results_view(keyword_results@),
                    fid,
                ),
        decreases *self,
    {
        match self {
            BooleanExpr::Keyword(kw) => {
                let mut out: Vec<Vec<u8>> = Vec::new();
                proof {
                    assert(pv(out@) =~= Seq::<Seq<u8>>::empty());
                }
                match find_results(keyword_results, kw) {
                    Some(list) => {
                        push_new(&mut out, list);
                        proof {
                            assert forall|fid: Seq<u8>|
                                pv(out@).contains(fid) <==> eval_member(
                                    *self,
                                    results_view(keyword_results@),
                                    fid,
                                ) by {
                                lemma_not_contains_empty(fid);
                            }
                        }
                    },
                    None => {
                        proof {
                            assert forall|fid: Seq<u8>|
                                pv(out@).contains(fid) <==> eval_member(
                                    *self,
                                    results_view(keyword_results@),
                                    fid,
                                ) by {
                                lemma_not_contains_empty(fid);
                            }
                        }
                    },
                }
                out
            },
            BooleanExpr::And(l, r) => {
                let left = l.evaluate(keyword_results);
                let right = r.evaluate(keyword_results);
                let mut out: Vec<Vec<u8>> = Vec::new();
                proof {
                    assert(pv(out@) =~= Seq::<Seq<u8>>::empty());
                }
                let n = left.len();
                let mut i: usize = 0;
                while i < n
                    invariant
                        n == left@.len(),
                        0 <= i <= n,
                        pv(out@).no_duplicates(),
                        pv(left@).no_duplicates(),
                        forall|x: Seq<u8>|
                            pv(out@).contains(x) <==> (pv(left@).take(i as int).contains(x) && pv(
                                right@,
                            ).contains(x)),
                    decreases n - i,
                {
                    let ghost before = pv(out@);
                    if crate::mpt_utils::tokens_contain(&right, &left[i])
                        && !crate::mpt_utils::tokens_contain(&out, &left[i]) {
                        out.push(scalar_clone(&left[i]));
                        proof {
                            assert(pv(out@) =~= before.push(pv(left@)[i as int]));
                            lemma_push_no_dups(before, pv(left@)[i as int]);
                            lemma_push_contains(before, pv(left@)[i as int]);
                        }
                    }
                    proof {
                        lemma_take_step(pv(left@), i as int);
                        assert forall|x: Seq<u8>|
                            pv(out@).contains(x) <==> (pv(left@).take(i + 1).contains(x) && pv(
                                right@,
                            ).contains(x)) by {
                            assert(pv(left@).take(i + 1).contains(x) <==> pv(left@).take(
                                i as int,
                            ).contains(x) || x == pv(left@)[i as int]);
                            assert(before.contains(x) <==> (pv(left@).take(i as int).contains(x)
                                && pv(right@).contains(x)));
                        }
                    }
                    i += 1;
                }
                proof {
                    assert(pv(left@).take(n as int) =~= pv(left@));
                    assert forall|fid: Seq<u8>|
                        pv(out@).contains(fid) <==> eval_member(
                            *self,
                            results_view(keyword_results@),
                            fid,
                        ) by {
                        assert(pv(out@).contains(fid) <==> (pv(left@).contains(fid) && pv(
                            right@,
                        ).contains(fid)));
                    }
                }
                out
            },
            BooleanExpr::Or(l, r) => {
                let mut out = l.evaluate(keyword_results);
                let ghost lv = pv(out@);
                let right = r.evaluate(keyword_results);
                push_new(&mut out, &right);
                proof {
                    assert forall|fid: Seq<u8>|
                        pv(out@).contains(fid) <==> eval_member(
                            *self,
                            results_view(keyword_results@),
                            fid,
                        ) by {
                        assert(pv(out@).contains(fid) <==> lv.contains(fid) || pv(
                            right@,
                        ).contains(fid));
                    }
                }
                out
            },
            BooleanExpr::Not(_) => {
                let out: Vec<Vec<u8>> = Vec::new();
                proof {
                    assert(pv(out@) =~= Seq::<Seq<u8>>::empty());
                    assert forall|fid: Seq<u8>|
                        pv(out@).contains(fid) <==> eval_member(
                            *self,
                            results_view(keyword_results@),
                            fid,
                        ) by {
                        lemma_not_contains_empty(fid);
                    }
                }
                out
            },
        }
    }

    /// The parenthesized text of the expression.
    pub fn to_string(&self) -> (r: Vec<u8>)
        ensures
            r@ == expr_text_of(*self),
        decreases *self,
    {
        match self {
            BooleanExpr::Keyword(kw) => scalar_clone(kw),
            BooleanExpr::And(l, r) => {
                let mut out: Vec<u8> = Vec::new();
                out.push(40);
                crate::mpt_node::append_bytes(&mut out, &l.to_string());
                out.push(32);
                out.push(65);
                out.push(78);
                out.push(68);
                out.push(32);
                crate::mpt_node::append_bytes(&mut out, &r.to_string());
                out.push(41);
                proof {
                    assert(out@ =~= expr_text_of(*self));
                }
                out
            },
            BooleanExpr::Or(l, r) => {
                let mut out: Vec<u8> = Vec::new();
                out.push(40);
                crate::mpt_node::append_bytes(&mut out, &l.to_string());
                out.push(32);
                out.push(79);
                out.push(82);
                out.push(32);
                crate::mpt_node::append_bytes(&mut out, &r.to_string());
                out.push(41);
                proof {
                    assert(out@ =~= expr_text_of(*self));
                }
                out
            },
            BooleanExpr::Not(inner) => {
                let mut out: Vec<u8> = Vec::new();
                out.push(40);
                out.push(78);
                out.push(79);
                out.push(84);
                out.push(32);
                crate::mpt_node::append_bytes(&mut out, &inner.to_string());
                out.push(41);
                proof {
                    assert(out@ =~= expr_text_of(*self));
                }
                out
            },
        }
    }
}

proof fn lemma_take_step(s: Seq<Seq<u8>>, i: int)
    requires
        0 <= i < s.len(),
    ensures
        forall|x: Seq<u8>| s.take(i + 1).contains(x) <==> s.take(i).contains(x) || x == s[i],
{
    assert forall|x: Seq<u8>| #[trigger]
        s.take(i + 1).contains(x) implies s.take(i).contains(x) || x == s[i] by {
        let w = choose|w: int| 0 <= w < i + 1 && (#[trigger] s.take(i + 1)[w]) == x;
        if w < i {
            assert(s.take(i)[w] == x);
        }
    }
    assert forall|x: Seq<u8>| s.take(i).contains(x) || x == s[i] implies #[trigger] s.take(
        i + 1,
    ).contains(x) by {
        if s.take(i).contains(x) {
            let w = choose|w: int| 0 <= w < i && (#[trigger] s.take(i)[w]) == x;
            assert(s.take(i + 1)[w] == x);
        } else {
            assert(s.take(i + 1)[i] == x);
        }
    }
}

/// One token of the expression language.
enum Token {
    Keyword(Vec<u8>),
    And,
    Or,
    Not,
    LeftParen,
    RightParen,
    Eof,
}

/// Whether a keyword token with the given text stands in a token range.
spec fn kw_token_in(toks: Seq<Token>, lo: int, hi: int, kw: Seq<u8>) -> bool {
    exists|j: int|
        lo <= j < hi && (#[trigger] toks[j]) is Keyword && toks[j]->Keyword_0@ == kw
}

/// Whether a byte can stand in an identifier: an ASCII letter or digit, an
/// underscore or hyphen, or any byte beyond ASCII.
fn is_ident_byte(b: u8) -> (r: bool)
    ensures
        r == ident_byte(b),
{
    (48 <= b && b <= 57) || (65 <= b && b <= 90) || (97 <= b && b <= 122) || b == 95 || b == 45
        || b >= 128
}

/// Whether a byte is whitespace.
fn is_space_byte(b: u8) -> (r: bool)
    ensures
        r == space_byte(b),
{
    b == 32 || b == 9 || b == 10 || b == 13
}

/// Whether a byte can start an identifier: a letter, an underscore, or any
/// byte beyond ASCII.
fn is_ident_start(b: u8) -> (r: bool)
{
    (65 <= b && b <= 90) || (97 <= b && b <= 122) || b == 95 || b >= 128
}

/// Uppercases the ASCII letters of a word.
fn to_upper(w: &Vec<u8>) -> (r: Vec<u8>)
    ensures
        r@ == upper_of(w@),
{
    let mut out: Vec<u8> = Vec::new();
    let mut i: usize = 0;
    while i < w.len()
        invariant
            0 <= i <= w@.len(),
            out@ == upper_of(w@).take(i as int),
        decreases w@.len() - i,
    {
        let b = w[i];
        if 97 <= b && b <= 122 {
            out.push(b - 32);
        } else {
            out.push(b);
        }
        proof {
            assert(out@ =~= upper_of(w@).take(i + 1));
        }
        i += 1;
    }
    proof {
        assert(upper_of(w@).take(w@.len() as int) =~= upper_of(w@));
    }
    out
}

/// Whether a word is one of the operators, case-insensitively.
fn word_is(w: &Vec<u8>, upper: &Vec<u8>) -> (r: bool)
    ensures
        r == (upper_of(w@) == upper@),
{
    let u = to_upper(w);
    bytes_eq(&u, upper)
}

/// Reads the tokens of an input: every keyword token's text is a word of
/// the input.
fn lex(input: &Vec<u8>) -> (r: Vec<Token>)
    ensures
        r@.len() >= 1,
        r@.last() is Eof,
        forall|j: int|
            0 <= j < r@.len() && (#[trigger] r@[j]) is Keyword ==> ident_substring_of(
                r@[j]->Keyword_0@,
                input@,
            ),
        forall|a: int, b: int|
            single_word_at(input@, a, b) ==> r@.len() == 2 && r@[0] is Keyword
                && r@[0]->Keyword_0@ == input@.subrange(a, b) && r@[1] is Eof,
{
    let mut tokens: Vec<Token> = Vec::new();
    let n = input.len();
    let mut i: usize = 0;
    let mut and_word: Vec<u8> = Vec::new();
    and_word.push(65);
    and_word.push(78);
    and_word.push(68);
    let mut or_word: Vec<u8> = Vec::new();
    or_word.push(79);
    or_word.push(82);
    let mut not_word: Vec<u8> = Vec::new();
    not_word.push(78);
    not_word.push(79);
    not_word.push(84);
    proof {
        assert(and_word@ =~= seq![65u8, 78u8, 68u8]);
        assert(or_word@ =~= seq![79u8, 82u8]);
        assert(not_word@ =~= seq![78u8, 79u8, 84u8]);
    }
    while i < n
        invariant
            n == input@.len(),
            0 <= i <= n,
            and_word@ == seq![65u8, 78u8, 68u8],
            or_word@ == seq![79u8, 82u8],
            not_word@ == seq![78u8, 79u8, 84u8],
            forall|j: int|
                0 <= j < tokens@.len() && (#[trigger] tokens@[j]) is Keyword
                    ==> ident_substring_of(tokens@[j]->Keyword_0@, input@),
            forall|a: int, b: int|
                single_word_at(input@, a, b) ==> ((i <= a ==> tokens@.len() == 0) && (i > a ==> i
                    >= b && tokens@.len() == 1 && tokens@[0] is Keyword && tokens@[0]->Keyword_0@
                    == input@.subrange(a, b))),
        decreases n - i,
    {
        let b = input[i];
        if is_space_byte(b) {
            i += 1;
        } else if b == 40 {
            tokens.push(Token::LeftParen);
            i += 1;
        } else if b == 41 {
            tokens.push(Token::RightParen);
            i += 1;
        } else if is_ident_byte(b) {
            let ghost istart = i;
            let ghost toks0 = tokens@;
            let mut word: Vec<u8> = Vec::new();
            word.push(b);
            i += 1;
            proof {
                assert(word@ =~= input@.subrange(istart as int, istart + 1));
            }
            while i < n && is_ident_byte(input[i])
                invariant
                    n == input@.len(),
                    istart < i <= n,
                    word@ == input@.subrange(istart as int, i as int),
                    ident_byte(input@[istart as int]),
                    forall|k: int| istart <= k < i ==> ident_byte(#[trigger] input@[k]),
                decreases n - i,
            {
                word.push(input[i]);
                i += 1;
                proof {
                    assert(word@ =~= input@.subrange(istart as int, i as int));
                }
            }
            let ghost wv = word@;
            let ghost iend = i;
            if word_is(&word, &and_word) {
                tokens.push(Token::And);
            } else if word_is(&word, &or_word) {
                tokens.push(Token::Or);
            } else if word_is(&word, &not_word) {
                tokens.push(Token::Not);
            } else {
                tokens.push(Token::Keyword(word));
                proof {
                    assert(wv == input@.subrange(istart as int, iend as int));
                    assert(ident_substring_of(wv, input@));
                }
            }
            proof {
                assert forall|a: int, b2: int|
                    single_word_at(input@, a, b2) implies ((i <= a ==> tokens@.len() == 0) && (i
                    > a ==> i >= b2 && tokens@.len() == 1 && tokens@[0] is Keyword
                    && tokens@[0]->Keyword_0@ == input@.subrange(a, b2))) by {
                    if istart < a {
                        assert(space_byte(input@[istart as int]));
                        assert(false);
                    }
                    if istart > a {
                        assert(istart >= b2);
                        assert(istart < n);
                        assert(space_byte(input@[istart as int]));
                        assert(false);
                    }
                    assert(istart == a);
                    assert(toks0.len() == 0);
                    if iend < b2 {
                        assert(ident_byte(input@[iend as int]));
                        assert(false);
                    }
                    if iend > b2 {
                        assert(b2 < n);
                        assert(ident_byte(input@[b2 as int]));
                        assert(space_byte(input@[b2 as int]));
                        assert(false);
                    }
                    assert(iend == b2);
                    assert(wv == input@.subrange(a, b2));
                    assert(!op_word(wv));
                    assert(tokens@.len() == 1 && tokens@[0] is Keyword && tokens@[0]->Keyword_0@
                        == input@.subrange(a, b2));
                }
            }
        } else {
            // an unexpected byte is skipped
            i += 1;
        }
    }
    tokens.push(Token::Eof);
    proof {
        assert forall|a: int, b2: int|
            single_word_at(input@, a, b2) implies tokens@.len() == 2 && tokens@[0] is Keyword
            && tokens@[0]->Keyword_0@ == input@.subrange(a, b2) && tokens@[1] is Eof by {
            assert(i == n);
            assert(i > a);
        }
    }
    tokens
}

/// The recursive-descent parser over the token list.
struct Parser {
    tokens: Vec<Token>,
    pos: usize,
}

/// Whether the parser state is sound: the position is inside the tokens and
/// the list ends with `Eof`.
spec fn parser_wf(p: Parser) -> bool {
    &&& p.tokens@.len() >= 1
    &&& p.pos < p.tokens@.len()
    &&& (p.tokens@.last() is Eof)
}

impl Parser {
    fn new(input: &Vec<u8>) -> (r: Self)
        ensures
            parser_wf(r),
            r.pos == 0,
            forall|j: int|
                0 <= j < r.tokens@.len() && (#[trigger] r.tokens@[j]) is Keyword
                    ==> ident_substring_of(r.tokens@[j]->Keyword_0@, input@),
            forall|a: int, b: int|
                single_word_at(input@, a, b) ==> r.tokens@.len() == 2 && r.tokens@[0] is Keyword
                    && r.tokens@[0]->Keyword_0@ == input@.subrange(a, b),
    {
        let tokens = lex(input);
        proof {
            assert(tokens@.last() is Eof);
        }
        Parser { tokens, pos: 0 }
    }

    fn at_eof(&self) -> (r: bool)
        requires
            parser_wf(*self),
        ensures
            r == (self.tokens@[self.pos as int] is Eof),
    {
        match &self.tokens[self.pos] {
            Token::Eof => true,
            _ => false,
        }
    }

    fn advance(&mut self)
        requires
            parser_wf(*old(self)),
        ensures
            parser_wf(*final(self)),
            final(self).tokens == old(self).tokens,
            old(self).pos <= final(self).pos <= old(self).pos + 1,
            !(old(self).tokens@[old(self).pos as int] is Eof) ==> final(self).pos == old(self).pos
                + 1,
    {
        if self.pos < self.tokens.len() - 1 {
            self.pos += 1;
        } else {
            proof {
                assert(self.pos == self.tokens@.len() - 1);
            }
        }
    }

    /// Parses `Expression := Term (OR Term)*`.
    fn parse_expression(&mut self) -> (r: Result<BooleanExpr, Vec<u8>>)
        requires
            parser_wf(*old(self)),
        ensures
            parser_wf(*final(self)),
            final(self).tokens == old(self).tokens,
            old(self).pos <= final(self).pos,
            r is Ok ==> forall|kw: Seq<u8>|
                #[trigger] kw_in_expr(r->Ok_0, kw) ==> kw_token_in(
                    final(self).tokens@,
                    old(self).pos as int,
                    final(self).pos as int,
                    kw,
                ),
            old(self).tokens@[old(self).pos as int] is Keyword && !(old(self).tokens@[old(
                self,
            ).pos + 1] is And) && !(old(self).tokens@[old(self).pos + 1] is Or) ==> r is Ok
                && r->Ok_0 is Keyword && r->Ok_0->Keyword_0@ == old(self).tokens@[old(
                self,
            ).pos as int]->Keyword_0@ && final(self).pos == old(self).pos + 1,
        decreases old(self).tokens@.len() - old(self).pos, 2int,
    {
        let mut left = match self.parse_term() {
            Ok(e) => e,
            Err(msg) => {
                return Err(msg);
            },
        };
        loop
            invariant
                parser_wf(*self),
                self.tokens == old(self).tokens,
                old(self).pos <= self.pos,
                forall|kw: Seq<u8>|
                    #[trigger] kw_in_expr(left, kw) ==> kw_token_in(
                        self.tokens@,
                        old(self).pos as int,
                        self.pos as int,
                        kw,
                    ),
                (old(self).tokens@[old(self).pos as int] is Keyword && !(old(self).tokens@[old(
                    self,
                ).pos + 1] is And) && !(old(self).tokens@[old(self).pos + 1] is Or)) ==> (
                left is Keyword && left->Keyword_0@ == old(self).tokens@[old(
                    self,
                ).pos as int]->Keyword_0@ && self.pos == old(self).pos + 1),
            decreases self.tokens@.len() - self.pos,
        {
            let is_or = match &self.tokens[self.pos] {
                Token::Or => true,
                _ => false,
            };
            if !is_or {
                break;
            }
            self.advance();
            let right = match self.parse_term() {
                Ok(e) => e,
                Err(msg) => {
                    return Err(msg);
                },
            };
            let ghost lprev = left;
            left = BooleanExpr::Or(Box::new(left), Box::new(right));
            proof {
                assert forall|kw: Seq<u8>| #[trigger]
                    kw_in_expr(left, kw) implies kw_token_in(
                    self.tokens@,
                    old(self).pos as int,
                    self.pos as int,
                    kw,
                ) by {
                    assert(kw_in_expr(lprev, kw) || kw_in_expr(right, kw));
                }
            }
        }
        Ok(left)
    }

    /// Parses `Term := Factor (AND Factor)*`.
    fn parse_term(&mut self) -> (r: Result<BooleanExpr, Vec<u8>>)
        requires
            parser_wf(*old(self)),
        ensures
            parser_wf(*final(self)),
            final(self).tokens == old(self).tokens,
            old(self).pos <= final(self).pos,
            r is Ok ==> forall|kw: Seq<u8>|
                #[trigger] kw_in_expr(r->Ok_0, kw) ==> kw_token_in(
                    final(self).tokens@,
                    old(self).pos as int,
                    final(self).pos as int,
                    kw,
                ),
            old(self).tokens@[old(self).pos as int] is Keyword && !(old(self).tokens@[old(
                self,
            ).pos + 1] is And) ==> r is Ok && r->Ok_0 is Keyword && r->Ok_0->Keyword_0@ == old(
                self,
            ).tokens@[old(self).pos as int]->Keyword_0@ && final(self).pos == old(self).pos + 1,
        decreases old(self).tokens@.len() - old(self).pos, 1int,
    {
        let mut left = match self.parse_factor() {
            Ok(e) => e,
            Err(msg) => {
                return Err(msg);
            },
        };
        loop
            invariant
                parser_wf(*self),
                self.tokens == old(self).tokens,
                old(self).pos <= self.pos,
                forall|kw: Seq<u8>|
                    #[trigger] kw_in_expr(left, kw) ==> kw_token_in(
                        self.tokens@,
                        old(self).pos as int,
                        self.pos as int,
                        kw,
                    ),
                (old(self).tokens@[old(self).pos as int] is Keyword && !(old(self).tokens@[old(
                    self,
                ).pos + 1] is And)) ==> (left is Keyword && left->Keyword_0@ == old(
                    self,
                ).tokens@[old(self).pos as int]->Keyword_0@ && self.pos == old(self).pos + 1),
            decreases self.tokens@.len() - self.pos,
        {
            let is_and = match &self.tokens[self.pos] {
                Token::And => true,
                _ => false,
            };
            if !is_and {
                break;
            }
            self.advance();
            let right = match self.parse_factor() {
                Ok(e) => e,
                Err(msg) => {
                    return Err(msg);
                },
            };
            let ghost lprev = left;
            left = BooleanExpr::And(Box::new(left), Box::new(right));
            proof {
                assert forall|kw: Seq<u8>| #[trigger]
                    kw_in_expr(left, kw) implies kw_token_in(
                    self.tokens@,
                    old(self).pos as int,
                    self.pos as int,
                    kw,
                ) by {
                    assert(kw_in_expr(lprev, kw) || kw_in_expr(right, kw));
                }
            }
        }
        Ok(left)
    }

    /// Parses `Factor := NOT Factor | Keyword | '(' Expression ')'`.
    fn parse_factor(&mut self) -> (r: Result<BooleanExpr, Vec<u8>>)
        requires
            parser_wf(*old(self)),
        ensures
            parser_wf(*final(self)),
            final(self).tokens == old(self).tokens,
            old(self).pos <= final(self).pos,
            r is Ok ==> forall|kw: Seq<u8>|
                #[trigger] kw_in_expr(r->Ok_0, kw) ==> kw_token_in(
                    final(self).tokens@,
                    old(self).pos as int,
                    final(self).pos as int,
                    kw,
                ),
            old(self).tokens@[old(self).pos as int] is Keyword ==> r is Ok && r->Ok_0 is Keyword
                && r->Ok_0->Keyword_0@ == old(self).tokens@[old(
                self,
            ).pos as int]->Keyword_0@ && final(self).pos == old(self).pos + 1,
        decreases old(self).tokens@.len() - old(self).pos, 0int,
    {
        let kw = match &self.tokens[self.pos] {
            Token::Not => {
                self.advance();
                let inner = match self.parse_factor() {
                    Ok(e) => e,
                    Err(msg) => {
                        return Err(msg);
                    },
                };
                let out = BooleanExpr::Not(Box::new(inner));
                proof {
                    assert forall|kwq: Seq<u8>| #[trigger]
                        kw_in_expr(out, kwq) implies kw_token_in(
                        self.tokens@,
                        old(self).pos as int,
                        self.pos as int,
                        kwq,
                    ) by {
                        assert(kw_in_expr(inner, kwq));
                    }
                }
                return Ok(out);
            },
            Token::Keyword(kw) => Some(scalar_clone(kw)),
            Token::LeftParen => None,
            _ => {
                return Err(parse_error_text());
            },
        };
        match kw {
            Some(k) => {
                proof {
                    assert(self.tokens@[self.pos as int] is Keyword);
                    assert(self.tokens@[self.pos as int]->Keyword_0@ == k@);
                }
                self.advance();
                proof {
                    assert forall|kwq: Seq<u8>| #[trigger]
                        kw_in_expr(BooleanExpr::Keyword(k), kwq) implies kw_token_in(
                        self.tokens@,
                        old(self).pos as int,
                        self.pos as int,
                        kwq,
                    ) by {
                        assert((#[trigger] self.tokens@[old(self).pos as int]) is Keyword
                            && self.tokens@[old(self).pos as int]->Keyword_0@ == kwq);
                    }
                }
                Ok(BooleanExpr::Keyword(k))
            },
            None => {
                self.advance();
                let inner = match self.parse_expression() {
                    Ok(e) => e,
                    Err(msg) => {
                        return Err(msg);
                    },
                };
                let is_close = match &self.tokens[self.pos] {
                    Token::RightParen => true,
                    _ => false,
                };
                if !is_close {
                    return Err(parse_error_text());
                }
                self.advance();
                Ok(inner)
            },
        }
    }

    fn parse(&mut self) -> (r: Result<BooleanExpr, Vec<u8>>)
        requires
            parser_wf(*old(self)),
        ensures
            parser_wf(*final(self)),
            final(self).tokens == old(self).tokens,
            r is Ok ==> forall|kw: Seq<u8>|
                #[trigger] kw_in_expr(r->Ok_0, kw) ==> kw_token_in(
                    final(self).tokens@,
                    0,
                    final(self).tokens@.len() as int,
                    kw,
                ),
            old(self).pos == 0 && old(self).tokens@.len() == 2 && old(self).tokens@[0] is Keyword
                ==> r is Ok && r->Ok_0 is Keyword && r->Ok_0->Keyword_0@ == old(
                self,
            ).tokens@[0]->Keyword_0@,
    {
        let expr = match self.parse_expression() {
            Ok(e) => e,
            Err(msg) => {
                return Err(msg);
            },
        };
        if !self.at_eof() {
            return Err(parse_error_text());
        }
        Ok(expr)
    }
}

/// The message of a parse failure: "unexpected token".
fn parse_error_text() -> (r: Vec<u8>)
{
    let mut out: Vec<u8> = Vec::new();
    out.push(117);
    out.push(110);
    out.push(101);
    out.push(120);
    out.push(112);
    out.push(101);
    out.push(99);
    out.push(116);
    out.push(101);
    out.push(100);
    out.push(32);
    out.push(116);
    out.push(111);
    out.push(107);
    out.push(101);
    out.push(110);
    out
}

/// Parses a boolean expression over keywords: every keyword leaf of a
/// parsed expression is a word of the input text, and an input that is one
/// identifier word parses to exactly that keyword.
pub fn parse_boolean_expr(input: &Vec<u8>) -> (r: Result<BooleanExpr, Vec<u8>>)
    ensures
        r is Ok ==> forall|kw: Seq<u8>|
            #[trigger] kw_in_expr(r->Ok_0, kw) ==> ident_substring_of(kw, input@),
        forall|a: int, b: int|
            #[trigger] single_word_at(input@, a, b) ==> r is Ok && r->Ok_0 is Keyword
                && r->Ok_0->Keyword_0@ == input@.subrange(a, b),
{
    let mut parser = Parser::new(input);
    let r = parser.parse();
    proof {
        if r is Ok {
            assert forall|kw: Seq<u8>| #[trigger]
                kw_in_expr(r->Ok_0, kw) implies ident_substring_of(kw, input@) by {
                let j = choose|j: int|
                    0 <= j < parser.tokens@.len() && (#[trigger] parser.tokens@[j]) is Keyword
                        && parser.tokens@[j]->Keyword_0@ == kw;
                assert(ident_substring_of(parser.tokens@[j]->Keyword_0@, input@));
            }
        }
    }
    r
}

} // verus!
