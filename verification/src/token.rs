//! The words of a text: which bytes belong to a word, how case is folded, and
//! which tokens a sequence of bytes holds.

use vstd::prelude::*;

verus! {

/// A byte belongs to a word if it is an ASCII digit or an ASCII letter.
pub open spec fn is_word_byte(b: u8) -> bool {
    ||| 0x30 <= b <= 0x39
    ||| 0x41 <= b <= 0x5a
    ||| 0x61 <= b <= 0x7a
}

/// The lower-case form of a byte: an ASCII capital becomes its small letter,
/// every other byte stays as it is.
pub open spec fn fold_byte(b: u8) -> u8 {
    if 0x41 <= b <= 0x5a {
        (b + 0x20) as u8
    } else {
        b
    }
}

/// The lower-case form of a sequence of bytes, byte by byte.
pub open spec fn fold_case(s: Seq<u8>) -> Seq<u8> {
    Seq::new(s.len(), |i: int| fold_byte(s[i]))
}

/// Whether every byte of `s` belongs to a word.
pub open spec fn all_word_bytes(s: Seq<u8>) -> bool {
    forall|i: int| 0 <= i < s.len() ==> is_word_byte(#[trigger] s[i])
}

/// Whether no byte of `s` belongs to a word.
pub open spec fn no_word_bytes(s: Seq<u8>) -> bool {
    forall|i: int| 0 <= i < s.len() ==> !is_word_byte(#[trigger] s[i])
}

/// The length of the longest prefix of `s` made of word bytes only.
pub open spec fn run_len(s: Seq<u8>) -> nat
    decreases s.len(),
{
    if s.len() > 0 && is_word_byte(s[0]) {
        1 + run_len(s.drop_first())
    } else {
        0
    }
}

/// The run at the start of `s` is a prefix of `s`, and it is not empty if
/// `s` starts with a word byte.
pub proof fn lemma_run_len_bounds(s: Seq<u8>)
    ensures
        run_len(s) <= s.len(),
        s.len() > 0 && is_word_byte(s[0]) ==> run_len(s) >= 1,
    decreases s.len(),
{
    if s.len() > 0 && is_word_byte(s[0]) {
        lemma_run_len_bounds(s.drop_first());
    }
}

/// The tokens of a text, in the order in which they occur: each maximal run
/// of word bytes, folded to lower case. Bytes between the runs separate them
/// and are dropped.
pub open spec fn tokens(s: Seq<u8>) -> Seq<Seq<u8>>
    decreases s.len(),
    via tokens_decreases
{
    if s.len() == 0 {
        Seq::empty()
    } else if !is_word_byte(s[0]) {
        tokens(s.drop_first())
    } else {
        let n = run_len(s) as int;
        seq![fold_case(s.take(n))] + tokens(s.skip(n))
    }
}

#[via_fn]
proof fn tokens_decreases(s: Seq<u8>) {
    lemma_run_len_bounds(s);
}

/// What a scanner emits when a word ends: the pending word as one token, or
/// nothing where no word is pending.
pub open spec fn flush(pending: Seq<u8>) -> Seq<Seq<u8>> {
    if pending.len() > 0 {
        seq![pending]
    } else {
        Seq::empty()
    }
}

/// The tokens that a scanner emits on `s` when it reads `s` byte by byte and
/// starts with the word `pending` in its buffer: a word byte is folded and
/// joins the pending word, any other byte ends the pending word, and so does
/// the end of the text.
pub open spec fn scan(s: Seq<u8>, pending: Seq<u8>) -> Seq<Seq<u8>>
    decreases s.len(),
{
    if s.len() == 0 {
        flush(pending)
    } else if is_word_byte(s[0]) {
        scan(s.drop_first(), pending.push(fold_byte(s[0])))
    } else {
        flush(pending) + scan(s.drop_first(), Seq::empty())
    }
}

/// The tokens of a text are its first run, if it starts with one, and the
/// tokens of what follows that run.
pub proof fn lemma_tokens_after_run(s: Seq<u8>)
    ensures
        tokens(s) == flush(fold_case(s.take(run_len(s) as int))) + tokens(
            s.skip(run_len(s) as int),
        ),
{
    lemma_run_len_bounds(s);
    if s.len() > 0 && !is_word_byte(s[0]) {
        assert(s.skip(0) =~= s);
    }
    assert(tokens(s) =~= flush(fold_case(s.take(run_len(s) as int))) + tokens(
        s.skip(run_len(s) as int),
    ));
}

/// A scanner that holds a pending word first completes that word with the
/// run at the start of the text, and then emits the tokens of the rest.
pub proof fn lemma_scan_from(s: Seq<u8>, pending: Seq<u8>)
    ensures
        scan(s, pending) == flush(pending + fold_case(s.take(run_len(s) as int))) + tokens(
            s.skip(run_len(s) as int),
        ),
    decreases s.len(),
{
    let n = run_len(s) as int;
    lemma_run_len_bounds(s);
    if s.len() == 0 {
        assert(pending + fold_case(s.take(n)) =~= pending);
        assert(flush(pending) + tokens(s.skip(n)) =~= flush(pending));
    } else if is_word_byte(s[0]) {
        let rest = s.drop_first();
        let m = run_len(rest) as int;
        lemma_run_len_bounds(rest);
        lemma_scan_from(rest, pending.push(fold_byte(s[0])));
        assert(pending.push(fold_byte(s[0])) + fold_case(rest.take(m)) =~= pending + fold_case(
            s.take(n),
        ));
        assert(rest.skip(m) =~= s.skip(n));
    } else {
        let rest = s.drop_first();
        lemma_scan_from(rest, Seq::empty());
        lemma_tokens_after_run(rest);
        assert(Seq::<u8>::empty() + fold_case(rest.take(run_len(rest) as int)) =~= fold_case(
            rest.take(run_len(rest) as int),
        ));
        assert(pending + fold_case(s.take(n)) =~= pending);
        assert(s.skip(n) =~= s);
    }
}

/// Scanning a text byte by byte, with nothing pending at the start, emits
/// exactly the tokens of the text.
pub proof fn lemma_scan_emits_tokens(s: Seq<u8>)
    ensures
        scan(s, Seq::empty()) == tokens(s),
{
    lemma_scan_from(s, Seq::empty());
    lemma_tokens_after_run(s);
    assert(Seq::<u8>::empty() + fold_case(s.take(run_len(s) as int)) =~= fold_case(
        s.take(run_len(s) as int),
    ));
}

/// A word as the tokens of a text are: not empty, made of word bytes only,
/// and without capitals.
pub open spec fn is_normalized(word: Seq<u8>) -> bool {
    &&& word.len() > 0
    &&& forall|i: int|
        0 <= i < word.len() ==> is_word_byte(#[trigger] word[i]) && fold_byte(word[i]) == word[i]
}

/// Whether a text that is cut into `a` and `b` is cut between two runs and
/// not within one.
pub open spec fn cut_between_runs(a: Seq<u8>, b: Seq<u8>) -> bool {
    a.len() == 0 || b.len() == 0 || !is_word_byte(a.last()) || !is_word_byte(b[0])
}

/// Folding keeps word bytes word bytes and other bytes other bytes, and a
/// folded byte stays as it is when folded again.
pub proof fn lemma_fold_byte(b: u8)
    ensures
        is_word_byte(fold_byte(b)) == is_word_byte(b),
        fold_byte(fold_byte(b)) == fold_byte(b),
{
}

/// Folding a text that is folded already changes nothing.
pub proof fn lemma_fold_case_idempotent(s: Seq<u8>)
    ensures
        fold_case(fold_case(s)) == fold_case(s),
{
    assert(fold_case(fold_case(s)) =~= fold_case(s));
}

/// The run at the start of a text is made of word bytes, and the byte after
/// it, if there is one, is no word byte.
pub proof fn lemma_run_is_maximal(s: Seq<u8>)
    ensures
        run_len(s) <= s.len(),
        all_word_bytes(s.take(run_len(s) as int)),
        run_len(s) < s.len() ==> !is_word_byte(s[run_len(s) as int]),
    decreases s.len(),
{
    if s.len() > 0 && is_word_byte(s[0]) {
        let rest = s.drop_first();
        lemma_run_is_maximal(rest);
        let n = run_len(s) as int;
        assert forall|i: int| 0 <= i < n implies is_word_byte(#[trigger] s.take(n)[i]) by {
            if i > 0 {
                assert(s.take(n)[i] == rest.take(n - 1)[i - 1]);
            }
        }
        if n < s.len() {
            assert(s[n] == rest[n - 1]);
        }
    }
}

/// A text of word bytes only is one run.
pub proof fn lemma_run_of_word(w: Seq<u8>)
    requires
        all_word_bytes(w),
    ensures
        run_len(w) == w.len(),
    decreases w.len(),
{
    if w.len() > 0 {
        assert(is_word_byte(w[0]));
        assert forall|i: int| 0 <= i < w.drop_first().len() implies is_word_byte(
            #[trigger] w.drop_first()[i],
        ) by {
            assert(w.drop_first()[i] == w[i + 1]);
        }
        lemma_run_of_word(w.drop_first());
    }
}

/// The run at the start of `a + b` is the run at the start of `a`, unless
/// that run is all of `a`: then the run at the start of `b` continues it.
pub proof fn lemma_run_len_concat(a: Seq<u8>, b: Seq<u8>)
    ensures
        run_len(a + b) == if run_len(a) < a.len() {
            run_len(a)
        } else {
            a.len() + run_len(b)
        },
    decreases a.len(),
{
    lemma_run_len_bounds(a);
    if a.len() == 0 {
        assert(a + b =~= b);
    } else if is_word_byte(a[0]) {
        assert((a + b).drop_first() =~= a.drop_first() + b);
        lemma_run_len_concat(a.drop_first(), b);
    }
}

/// The tokens of a text that is cut between two runs are the tokens of the
/// first part and then those of the second.
pub proof fn lemma_tokens_concat(a: Seq<u8>, b: Seq<u8>)
    requires
        cut_between_runs(a, b),
    ensures
        tokens(a + b) == tokens(a) + tokens(b),
    decreases a.len(),
{
    if a.len() == 0 {
        assert(a + b =~= b);
        assert(tokens(a) + tokens(b) =~= tokens(b));
    } else if b.len() == 0 {
        assert(a + b =~= a);
        assert(tokens(a) + tokens(b) =~= tokens(a));
    } else if !is_word_byte(a[0]) {
        assert((a + b).drop_first() =~= a.drop_first() + b);
        if a.len() > 1 {
            assert(a.drop_first().last() == a.last());
        }
        lemma_tokens_concat(a.drop_first(), b);
    } else {
        let n = run_len(a) as int;
        lemma_run_is_maximal(a);
        lemma_run_len_concat(a, b);
        if n < a.len() {
            assert((a + b).take(n) =~= a.take(n));
            assert((a + b).skip(n) =~= a.skip(n) + b);
            assert(a.skip(n).last() == a.last());
            lemma_tokens_concat(a.skip(n), b);
            assert(tokens(a + b) =~= tokens(a) + tokens(b));
        } else {
            assert(a.take(n) =~= a);
            assert(is_word_byte(a.take(n)[n - 1]));
            assert(run_len(b) == 0);
            assert((a + b).take(n) =~= a);
            assert((a + b).skip(n) =~= b);
            assert(a.skip(n) =~= Seq::<u8>::empty());
            assert(tokens(a + b) =~= tokens(a) + tokens(b));
        }
    }
}

/// Every token of a text is a normalized word.
pub proof fn lemma_tokens_normalized(s: Seq<u8>)
    ensures
        forall|k: int| 0 <= k < tokens(s).len() ==> is_normalized(#[trigger] tokens(s)[k]),
    decreases s.len(),
{
    if s.len() == 0 {
        assert(tokens(s).len() == 0);
    } else if !is_word_byte(s[0]) {
        lemma_tokens_normalized(s.drop_first());
        assert(tokens(s) == tokens(s.drop_first()));
    } else {
        let n = run_len(s) as int;
        lemma_run_len_bounds(s);
        lemma_run_is_maximal(s);
        lemma_tokens_normalized(s.skip(n));
        let first = fold_case(s.take(n));
        assert(is_normalized(first)) by {
            assert forall|i: int| 0 <= i < first.len() implies is_word_byte(#[trigger] first[i])
                && fold_byte(first[i]) == first[i] by {
                assert(is_word_byte(s.take(n)[i]));
                lemma_fold_byte(s.take(n)[i]);
            }
        }
        assert(tokens(s) == seq![first] + tokens(s.skip(n)));
        assert forall|k: int| 0 <= k < tokens(s).len() implies is_normalized(
            #[trigger] tokens(s)[k],
        ) by {
            if k > 0 {
                assert(tokens(s)[k] == tokens(s.skip(n))[k - 1]);
            } else {
                assert(tokens(s)[0] == first);
            }
        }
    }
}

/// A text has no token if and only if it has no word byte.
pub proof fn lemma_no_tokens(s: Seq<u8>)
    ensures
        tokens(s).len() == 0 <==> no_word_bytes(s),
    decreases s.len(),
{
    if s.len() > 0 && !is_word_byte(s[0]) {
        let rest = s.drop_first();
        lemma_no_tokens(rest);
        if no_word_bytes(rest) {
            assert forall|i: int| 0 <= i < s.len() implies !is_word_byte(#[trigger] s[i]) by {
                if i > 0 {
                    assert(s[i] == rest[i - 1]);
                }
            }
        }
        if no_word_bytes(s) {
            assert forall|i: int| 0 <= i < rest.len() implies !is_word_byte(#[trigger] rest[i]) by {
                assert(rest[i] == s[i + 1]);
            }
        }
    }
}

/// However many bytes separate two words, they separate them once: the
/// separators between two parts of a text leave no token of their own.
pub proof fn lemma_separators_collapse(a: Seq<u8>, separators: Seq<u8>, b: Seq<u8>)
    requires
        separators.len() > 0,
        no_word_bytes(separators),
    ensures
        tokens(a + separators + b) == tokens(a) + tokens(b),
{
    assert(!is_word_byte(separators[0]));
    assert(!is_word_byte(separators[separators.len() - 1]));
    assert((a + separators).last() == separators.last());
    lemma_tokens_concat(a + separators, b);
    lemma_tokens_concat(a, separators);
    lemma_no_tokens(separators);
    assert(tokens(a) + tokens(separators) =~= tokens(a));
}

/// A word at the very end of a text is a token, though nothing follows it.
pub proof fn lemma_last_word_counts(a: Seq<u8>, word: Seq<u8>)
    requires
        a.len() == 0 || !is_word_byte(a.last()),
        word.len() > 0,
        all_word_bytes(word),
    ensures
        tokens(a + word) == tokens(a).push(fold_case(word)),
{
    lemma_tokens_concat(a, word);
    lemma_run_of_word(word);
    assert(is_word_byte(word[0]));
    assert(word.take(word.len() as int) =~= word);
    assert(word.skip(word.len() as int) =~= Seq::<u8>::empty());
    assert(tokens(word.skip(word.len() as int)) =~= Seq::<Seq<u8>>::empty());
    assert(tokens(word) =~= seq![fold_case(word)]);
    assert(tokens(a) + tokens(word) =~= tokens(a).push(fold_case(word)));
}

/// The tokens of a text do not depend on the case of its letters.
pub proof fn lemma_tokens_ignore_case(s: Seq<u8>)
    ensures
        tokens(fold_case(s)) == tokens(s),
    decreases s.len(),
{
    let folded = fold_case(s);
    if s.len() > 0 {
        lemma_fold_byte(s[0]);
        if !is_word_byte(s[0]) {
            assert(folded.drop_first() =~= fold_case(s.drop_first()));
            lemma_tokens_ignore_case(s.drop_first());
        } else {
            let n = run_len(s) as int;
            lemma_run_len_bounds(s);
            lemma_run_len_ignores_case(s);
            assert(fold_case(folded.take(n)) =~= fold_case(s.take(n))) by {
                assert forall|i: int| 0 <= i < n implies fold_byte(#[trigger] folded.take(n)[i])
                    == fold_byte(s.take(n)[i]) by {
                    lemma_fold_byte(s[i]);
                }
            }
            assert(folded.skip(n) =~= fold_case(s.skip(n)));
            lemma_tokens_ignore_case(s.skip(n));
        }
    }
}

/// The run at the start of a text is as long as that of the folded text.
pub proof fn lemma_run_len_ignores_case(s: Seq<u8>)
    ensures
        run_len(fold_case(s)) == run_len(s),
    decreases s.len(),
{
    if s.len() > 0 {
        lemma_fold_byte(s[0]);
        if is_word_byte(s[0]) {
            assert(fold_case(s).drop_first() =~= fold_case(s.drop_first()));
            lemma_run_len_ignores_case(s.drop_first());
        }
    }
}

/// Whether a run of word bytes starts at place `i` of `s`: a word byte
/// stands there, and none stands before it.
pub open spec fn starts_run(s: Seq<u8>, i: int) -> bool {
    0 <= i < s.len() && is_word_byte(s[i]) && (i == 0 || !is_word_byte(s[i - 1]))
}

/// The places of `s` at which a run of word bytes starts.
pub open spec fn run_starts(s: Seq<u8>) -> Set<int> {
    Set::new(|i: int| starts_run(s, i))
}

/// Finds where the run starts that ends a text whose last byte is a word
/// byte.
pub proof fn lemma_last_run(s: Seq<u8>) -> (start: int)
    requires
        s.len() > 0,
        is_word_byte(s.last()),
    ensures
        starts_run(s, start),
        all_word_bytes(s.skip(start)),
    decreases s.len(),
{
    let end = s.len() - 1;
    if s.len() == 1 || !is_word_byte(s[end - 1]) {
        assert(all_word_bytes(s.skip(end)));
        end
    } else {
        let front = s.drop_last();
        let start = lemma_last_run(front);
        assert forall|i: int| 0 <= i < s.skip(start).len() implies is_word_byte(
            #[trigger] s.skip(start)[i],
        ) by {
            if i < front.skip(start).len() {
                assert(s.skip(start)[i] == front.skip(start)[i]);
            }
        }
        start
    }
}

/// One more byte at the end of a text adds a token where it starts a run,
/// and none where it does not.
pub proof fn lemma_tokens_len_push(s: Seq<u8>, b: u8)
    ensures
        tokens(s.push(b)).len() == tokens(s).len() + if starts_run(s.push(b), s.len() as int) {
            1int
        } else {
            0int
        },
{
    let longer = s.push(b);
    let one = seq![b];
    assert(longer =~= s + one);
    if !is_word_byte(b) {
        lemma_tokens_concat(s, one);
        lemma_no_tokens(one);
    } else if s.len() == 0 || !is_word_byte(s.last()) {
        lemma_last_word_counts(s, one);
    } else {
        let start = lemma_last_run(s);
        let front = s.take(start);
        let run = s.skip(start);
        assert(s =~= front + run);
        assert(longer =~= front + run.push(b));
        assert(all_word_bytes(run.push(b))) by {
            assert forall|i: int| 0 <= i < run.push(b).len() implies is_word_byte(
                #[trigger] run.push(b)[i],
            ) by {
                if i < run.len() {
                    assert(run.push(b)[i] == run[i]);
                }
            }
        }
        lemma_last_word_counts(front, run);
        lemma_last_word_counts(front, run.push(b));
    }
}

/// A text has one token for each place at which a run of word bytes starts.
pub proof fn lemma_one_token_for_each_run(s: Seq<u8>)
    ensures
        run_starts(s).finite(),
        tokens(s).len() == run_starts(s).len(),
    decreases s.len(),
{
    broadcast use vstd::set::group_set_axioms;

    if s.len() == 0 {
        assert(run_starts(s) =~= Set::<int>::empty());
    } else {
        let front = s.drop_last();
        let end = s.len() - 1;
        assert(s =~= front.push(s.last()));
        lemma_one_token_for_each_run(front);
        lemma_tokens_len_push(front, s.last());
        assert forall|i: int| starts_run(s, i) == (starts_run(front, i) || (i == end && starts_run(
            s,
            end,
        ))) by {
            if 0 <= i < end {
                assert(front[i] == s[i]);
                if i > 0 {
                    assert(front[i - 1] == s[i - 1]);
                }
            }
        }
        if starts_run(s, end) {
            assert(run_starts(s) =~= run_starts(front).insert(end));
        } else {
            assert(run_starts(s) =~= run_starts(front));
        }
    }
}

/// Tests whether a byte belongs to a word.
pub fn is_alphanumeric(b: u8) -> (r: bool)
    ensures
        r == is_word_byte(b),
{
    (0x30 <= b && b <= 0x39) || (0x41 <= b && b <= 0x5a) || (0x61 <= b && b <= 0x7a)
}

/// Folds a byte to lower case.
pub fn to_lowercase(b: u8) -> (r: u8)
    ensures
        r == fold_byte(b),
{
    if 0x41 <= b && b <= 0x5a {
        b + 0x20
    } else {
        b
    }
}

} // verus!
