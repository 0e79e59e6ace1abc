//! Text normalisation, tokenisation and trigram generation.
//!
//! Text is normalised by keeping only alphanumeric and whitespace
//! characters, lowercasing, and trimming outer whitespace.  Tokens are the
//! whitespace-separated words of the normalised text.  A trigram is a
//! three-character window over a token padded as `$$<token>$`.

use vstd::prelude::*;

verus! {

use vstd::string::StrSliceExecFns;

// ---------------------------------------------------------------------------
// Character classification.
//
// The ASCII behaviour of `char::is_alphanumeric`, `char::is_whitespace` and
// `str::to_lowercase` is fixed by the Unicode tables and stated concretely;
// their behaviour outside the ASCII range is only named.
// ---------------------------------------------------------------------------

/// What `char::is_alphanumeric` returns on a character outside ASCII.
pub uninterp spec fn unicode_alnum(c: char) -> bool;

/// What `char::is_whitespace` returns on a character outside ASCII.
pub uninterp spec fn unicode_space(c: char) -> bool;

/// What `str::to_lowercase` returns on a character sequence that is not
/// entirely ASCII.
pub uninterp spec fn unicode_lower(s: Seq<char>) -> Seq<char>;

pub open spec fn ascii_char(c: char) -> bool {
    (c as u32) < 128
}

pub open spec fn ascii_seq(s: Seq<char>) -> bool {
    forall|i: int| 0 <= i < s.len() ==> ascii_char(#[trigger] s[i])
}

/// Unicode alphanumeric classification; concrete on ASCII.
pub open spec fn is_alnum_char(c: char) -> bool {
    if ascii_char(c) {
        (97 <= c as u32 && c as u32 <= 122)  // 'a'..='z'
        || (65 <= c as u32 && c as u32 <= 90)  // 'A'..='Z'
        || (48 <= c as u32 && c as u32 <= 57)  // '0'..='9'
    } else {
        unicode_alnum(c)
    }
}

/// Unicode whitespace classification; concrete on ASCII.
pub open spec fn is_space_char(c: char) -> bool {
    if ascii_char(c) {
        c as u32 == 32 || (9 <= c as u32 && c as u32 <= 13)
    } else {
        unicode_space(c)
    }
}

/// Characters that survive normalisation.
pub open spec fn keep_char(c: char) -> bool {
    is_alnum_char(c) || is_space_char(c)
}

/// The ASCII lowercase mapping of a single character.
pub open spec fn ascii_lower_char(c: char) -> char {
    if 65 <= c as u32 && c as u32 <= 90 {
        ((c as u32 + 32) as u32) as char
    } else {
        c
    }
}

/// The Unicode lowercase mapping of a character sequence; on ASCII input it
/// lowercases character by character.
pub open spec fn lower_of(s: Seq<char>) -> Seq<char> {
    if ascii_seq(s) {
        s.map_values(|c: char| ascii_lower_char(c))
    } else {
        unicode_lower(s)
    }
}

/// Relies on `char::is_alphanumeric`: the Unicode `Alphabetic` and numeric
/// classifications, which on ASCII hold exactly of the letters and digits.
#[verifier::external_body]
fn char_is_alphanumeric(c: char) -> (r: bool)
    ensures
        r == is_alnum_char(c),
        !ascii_char(c) ==> r == unicode_alnum(c),
{
    c.is_alphanumeric()
}

/// Relies on `char::is_whitespace`: the Unicode `White_Space` classification,
/// which on ASCII holds exactly of space and the five control characters
/// U+0009..U+000D.
#[verifier::external_body]
fn char_is_whitespace(c: char) -> (r: bool)
    ensures
        r == is_space_char(c),
        !ascii_char(c) ==> r == unicode_space(c),
{
    c.is_whitespace()
}

/// Relies on `str::to_lowercase`: the Unicode lowercase mapping, which sends
/// ASCII letters to their ASCII lowercase forms and depends on the
/// characters alone.
#[verifier::external_body]
fn lowercase_chars(v: &Vec<char>) -> (r: Vec<char>)
    ensures
        r@ == lower_of(v@),
        !ascii_seq(v@) ==> r@ == unicode_lower(v@),
{
    let s: String = v.iter().collect();
    s.to_lowercase().chars().collect()
}

/// Relies on `String`'s `FromIterator` over `char`: the collected string
/// holds exactly the characters of the vector, in order.
#[verifier::external_body]
pub(crate) fn string_from_chars(v: &Vec<char>) -> (s: String)
    ensures
        s@ == v@,
{
    v.iter().collect()
}

/// The characters of a string, as a vector.
pub(crate) fn chars_of(s: &str) -> (r: Vec<char>)
    ensures
        r@ == s@,
{
    let n = s.unicode_len();
    let mut r: Vec<char> = Vec::new();
    let mut i: usize = 0;
    while i < n
        invariant
            n == s@.len(),
            i <= n,
            r@ == s@.take(i as int),
        decreases n - i,
    {
        r.push(s.get_char(i));
        i = i + 1;
        proof {
            assert(r@ =~= s@.take(i as int));
        }
    }
    proof {
        assert(s@.take(n as int) =~= s@);
    }
    r
}

// ---------------------------------------------------------------------------
// Normalisation.
// ---------------------------------------------------------------------------

/// The characters of `s` that survive normalisation, in order.
pub open spec fn filter_keep(s: Seq<char>) -> Seq<char>
    decreases s.len(),
{
    if s.len() == 0 {
        Seq::empty()
    } else {
        let rest = filter_keep(s.drop_last());
        if keep_char(s.last()) {
            rest.push(s.last())
        } else {
            rest
        }
    }
}

/// `s` without its leading whitespace.
pub open spec fn trim_start_spec(s: Seq<char>) -> Seq<char>
    decreases s.len(),
{
    if s.len() > 0 && is_space_char(s[0]) {
        trim_start_spec(s.drop_first())
    } else {
        s
    }
}

/// `s` without its trailing whitespace.
pub open spec fn trim_end_spec(s: Seq<char>) -> Seq<char>
    decreases s.len(),
{
    if s.len() > 0 && is_space_char(s.last()) {
        trim_end_spec(s.drop_last())
    } else {
        s
    }
}

/// `s` without leading and trailing whitespace.
pub open spec fn trim_spec(s: Seq<char>) -> Seq<char> {
    trim_end_spec(trim_start_spec(s))
}

/// Normalisation: keep alphanumerics and whitespace, lowercase, trim.
pub open spec fn normalise_spec(t: Seq<char>) -> Seq<char> {
    trim_spec(lower_of(filter_keep(t)))
}

proof fn lemma_trim_start_skip(s: Seq<char>, a: int)
    requires
        0 <= a <= s.len(),
        forall|m: int| 0 <= m < a ==> is_space_char(#[trigger] s[m]),
        a == s.len() || !is_space_char(s[a]),
    ensures
        trim_start_spec(s) == s.skip(a),
    decreases a,
{
    if a == 0 {
        assert(s.skip(0) =~= s);
    } else {
        assert(is_space_char(s[0]));
        assert(s.len() > 0);
        lemma_trim_start_skip(s.drop_first(), a - 1);
        assert(s.drop_first().skip(a - 1) =~= s.skip(a));
    }
}

proof fn lemma_trim_end_take(s: Seq<char>, b: int)
    requires
        0 <= b <= s.len(),
        forall|m: int| b <= m < s.len() ==> is_space_char(#[trigger] s[m]),
        b == 0 || !is_space_char(s[b - 1]),
    ensures
        trim_end_spec(s) == s.take(b),
    decreases s.len(),
{
    if b == s.len() {
        if s.len() > 0 && is_space_char(s.last()) {
            assert(false);
        }
        assert(s.take(b) =~= s);
    } else {
        assert(is_space_char(s.last()));
        lemma_trim_end_take(s.drop_last(), b);
        assert(s.drop_last().take(b) =~= s.take(b));
    }
}

/// Normalised characters of a text, used by both tokenisation and trigram
/// generation.
fn normalize_chars(text: &str) -> (r: Vec<char>)
    ensures
        r@ == normalise_spec(text@),
{
    let raw = chars_of(text);
    let mut kept: Vec<char> = Vec::new();
    let mut i: usize = 0;
    while i < raw.len()
        invariant
            i <= raw.len(),
            kept@ == filter_keep(raw@.take(i as int)),
        decreases raw.len() - i,
    {
        let c = raw[i];
        proof {
            assert(raw@.take(i + 1 as int).drop_last() =~= raw@.take(i as int));
            assert(raw@.take(i + 1 as int).last() == raw@[i as int]);
        }
        if char_is_alphanumeric(c) || char_is_whitespace(c) {
            kept.push(c);
        }
        i = i + 1;
    }
    proof {
        assert(raw@.take(raw@.len() as int) =~= raw@);
    }
    let lowered = lowercase_chars(&kept);

    // trim leading and trailing whitespace
    let mut start: usize = 0;
    while start < lowered.len() && char_is_whitespace(lowered[start])
        invariant
            start <= lowered.len(),
            forall|m: int| 0 <= m < start ==> is_space_char(#[trigger] lowered@[m]),
        decreases lowered.len() - start,
    {
        start = start + 1;
    }
    let mut end: usize = lowered.len();
    while end > start && char_is_whitespace(lowered[end - 1])
        invariant
            start <= end <= lowered.len(),
            forall|m: int| end <= m < lowered.len() ==> is_space_char(#[trigger] lowered@[m]),
        decreases end,
    {
        end = end - 1;
    }

    let mut out: Vec<char> = Vec::new();
    let mut j: usize = start;
    while j < end
        invariant
            start <= j <= end <= lowered.len(),
            out@ == lowered@.subrange(start as int, j as int),
        decreases end - j,
    {
        out.push(lowered[j]);
        j = j + 1;
        proof {
            assert(out@ =~= lowered@.subrange(start as int, j as int));
        }
    }

    proof {
        let s = lowered@;
        if start == s.len() {
            lemma_trim_start_skip(s, start as int);
            assert(trim_start_spec(s) =~= Seq::<char>::empty());
            assert(end == start);
            assert(out@ =~= trim_end_spec(trim_start_spec(s)));
        } else {
            assert(!is_space_char(s[start as int]));
            lemma_trim_start_skip(s, start as int);
            let tail = s.skip(start as int);
            if end == start {
                assert(is_space_char(s[start as int]));  // contradiction with loop exit
                assert(false);
            }
            assert(!is_space_char(s[end - 1]));
            lemma_trim_end_take(tail, end - start as int);
            assert(trim_end_spec(tail) == tail.take(end - start as int));
            assert(tail.take(end - start as int) =~= s.subrange(start as int, end as int));
            assert(out@ == trim_spec(s));
        }
    }
    out
}

/// Normalise text for indexing and searching: keep only alphanumeric and
/// whitespace characters, lowercase the remainder, and trim outer
/// whitespace.
pub fn normalize_text(text: &str) -> (r: String)
    ensures
        r@ == normalise_spec(text@),
{
    let chars = normalize_chars(text);
    string_from_chars(&chars)
}

// ---------------------------------------------------------------------------
// Tokenisation.
// ---------------------------------------------------------------------------

/// Splits `s` on whitespace, dropping empty words; `cur` is the word read
/// so far.
pub open spec fn split_acc(s: Seq<char>, cur: Seq<char>) -> Seq<Seq<char>>
    decreases s.len(),
{
    if s.len() == 0 {
        if cur.len() > 0 {
            seq![cur]
        } else {
            Seq::empty()
        }
    } else if is_space_char(s[0]) {
        if cur.len() > 0 {
            seq![cur] + split_acc(s.drop_first(), Seq::empty())
        } else {
            split_acc(s.drop_first(), Seq::empty())
        }
    } else {
        split_acc(s.drop_first(), cur.push(s[0]))
    }
}

/// The whitespace-separated words of `s`, empty words dropped.
pub open spec fn tokens_spec(s: Seq<char>) -> Seq<Seq<char>> {
    split_acc(s, Seq::empty())
}

/// The tokens of a raw text: normalise, then split on whitespace.
pub open spec fn extract_tokens_spec(t: Seq<char>) -> Seq<Seq<char>> {
    tokens_spec(normalise_spec(t))
}

/// Extract the tokens (words) of a text: the text is normalised, split on
/// whitespace, and empty tokens are discarded.
pub fn extract_tokens(text: &str) -> (r: Vec<String>)
    ensures
        r.deep_view() == extract_tokens_spec(text@),
{
    let norm = normalize_chars(text);
    let ghost n = norm@;
    let mut r: Vec<String> = Vec::new();
    let mut cur: Vec<char> = Vec::new();
    let mut i: usize = 0;
    proof {
        assert(n.skip(0) =~= n);
        assert(r.deep_view() + split_acc(n, cur@) =~= split_acc(n, cur@));
    }
    while i < norm.len()
        invariant
            n == norm@,
            i <= n.len(),
            tokens_spec(n) == r.deep_view() + split_acc(n.skip(i as int), cur@),
        decreases norm.len() - i,
    {
        let c = norm[i];
        let ghost rest = n.skip(i as int);
        proof {
            assert(rest.len() > 0);
            assert(rest[0] == n[i as int]);
            assert(rest.drop_first() =~= n.skip(i + 1));
        }
        if char_is_whitespace(c) {
            if cur.len() > 0 {
                let ghost w = cur@;
                let word = string_from_chars(&cur);
                let ghost r0 = r.deep_view();
                r.push(word);
                cur = Vec::new();
                proof {
                    assert(r.deep_view() =~= r0 + seq![w]);
                    assert(split_acc(rest, w) == seq![w] + split_acc(n.skip(i + 1), cur@));
                    assert(r0 + (seq![w] + split_acc(n.skip(i + 1), cur@)) =~= (r0 + seq![w])
                        + split_acc(n.skip(i + 1), cur@));
                }
            } else {
                proof {
                    assert(cur@ =~= Seq::<char>::empty());
                    assert(split_acc(rest, cur@) == split_acc(n.skip(i + 1), cur@));
                }
            }
        } else {
            let ghost w = cur@;
            cur.push(c);
            proof {
                assert(cur@ == w.push(n[i as int]));
                assert(split_acc(rest, w) == split_acc(n.skip(i + 1), cur@));
            }
        }
        i = i + 1;
    }
    proof {
        assert(n.skip(n.len() as int) =~= Seq::<char>::empty());
    }
    if cur.len() > 0 {
        let word = string_from_chars(&cur);
        let ghost r0 = r.deep_view();
        r.push(word);
        proof {
            assert(r.deep_view() =~= r0 + seq![cur@]);
        }
    }
    proof {
        assert(r.deep_view() + Seq::<Seq<char>>::empty() =~= r.deep_view());
    }
    r
}

// ---------------------------------------------------------------------------
// Trigrams.
// ---------------------------------------------------------------------------

/// A token padded with two leading sentinels and one trailing sentinel.
pub open spec fn padded_spec(tok: Seq<char>) -> Seq<char> {
    seq!['$', '$'] + tok + seq!['$']
}

/// The three-character windows over the padded token, in order.  A token of
/// length `n` has `n + 1` windows.
pub open spec fn trigram_seq(tok: Seq<char>) -> Seq<Seq<char>> {
    Seq::new(tok.len() + 1, |i: int| padded_spec(tok).subrange(i, i + 3))
}

/// The trigram set of a raw text: the distinct windows over its normalised
/// form, or the empty set when nothing survives normalisation.
pub open spec fn trigrams_of(text: Seq<char>) -> Set<Seq<char>> {
    let norm = normalise_spec(text);
    if norm.len() == 0 {
        Set::empty()
    } else {
        trigram_seq(norm).to_set()
    }
}

/// Whether the vector holds a string whose characters are those of `s`.
pub(crate) fn contains_string(v: &Vec<String>, s: &String) -> (r: bool)
    ensures
        r == v.deep_view().contains(s@),
{
    let mut i: usize = 0;
    while i < v.len()
        invariant
            i <= v.len(),
            forall|j: int| 0 <= j < i ==> v.deep_view()[j] != s@,
        decreases v.len() - i,
    {
        if v[i].eq(s) {
            proof {
                assert(v.deep_view()[i as int] == v@[i as int]@);
            }
            return true;
        }
        i = i + 1;
    }
    false
}

/// Generate the trigrams of a string: the text is normalised, padded as
/// `$$<text>$`, and every distinct three-character window is returned, in
/// first-occurrence order.
pub fn generate_trigrams(text: &str) -> (r: Vec<String>)
    ensures
        r.deep_view().no_duplicates(),
        r.deep_view().to_set() == trigrams_of(text@),
        r@.len() <= normalise_spec(text@).len() + 1,
{
    let norm = normalize_chars(text);
    if norm.len() == 0 {
        let r: Vec<String> = Vec::new();
        proof {
            assert(r.deep_view().to_set() =~= trigrams_of(text@));
        }
        return r;
    }
    let mut padded: Vec<char> = Vec::new();
    padded.push('$');
    padded.push('$');
    let mut k: usize = 0;
    while k < norm.len()
        invariant
            k <= norm.len(),
            padded@ == seq!['$', '$'] + norm@.take(k as int),
        decreases norm.len() - k,
    {
        padded.push(norm[k]);
        k = k + 1;
        proof {
            assert(padded@ =~= seq!['$', '$'] + norm@.take(k as int));
        }
    }
    padded.push('$');
    proof {
        assert(norm@.take(norm@.len() as int) =~= norm@);
        assert(padded@ =~= padded_spec(norm@));
    }

    let ghost windows = trigram_seq(norm@);
    let mut r: Vec<String> = Vec::new();
    let mut i: usize = 0;
    while i < padded.len() - 2
        invariant
            padded@ == padded_spec(norm@),
            padded@.len() == norm@.len() + 3,
            windows == trigram_seq(norm@),
            i <= norm@.len() + 1,
            r.deep_view().no_duplicates(),
            r.deep_view().to_set() == windows.take(i as int).to_set(),
            r@.len() <= i,
        decreases padded.len() - i,
    {
        let mut w: Vec<char> = Vec::new();
        w.push(padded[i]);
        w.push(padded[i + 1]);
        w.push(padded[i + 2]);
        proof {
            assert(w@ =~= padded_spec(norm@).subrange(i as int, i + 3));
            assert(windows[i as int] == w@);
        }
        let ws = string_from_chars(&w);
        let seen = contains_string(&r, &ws);
        proof {
            assert(forall|a: Seq<char>| windows.take(i + 1).contains(a) <==> (
                windows.take(i as int).contains(a) || a == windows[i as int])) by {
                assert(forall|j: int| 0 <= j < i ==> windows.take(i + 1)[j]
                    == #[trigger] windows.take(i as int)[j]);
                assert(windows.take(i + 1)[i as int] == windows[i as int]);
            }
        }
        proof {
            assert(windows.take(i + 1) =~= windows.take(i as int) + seq![ws@]);
            Seq::lemma_to_set_insert_commutes(windows.take(i as int), ws@);
        }
        if !seen {
            let ghost r0 = r.deep_view();
            r.push(ws);
            proof {
                assert(r.deep_view() =~= r0 + seq![ws@]);
                Seq::lemma_to_set_insert_commutes(r0, ws@);
                assert(r.deep_view().to_set() == windows.take(i + 1).to_set());
            }
        } else {
            proof {
                assert(windows.take(i as int).to_set().contains(ws@));
                assert(windows.take(i as int).to_set().insert(ws@) =~= windows.take(
                    i as int,
                ).to_set());
                assert(r.deep_view().to_set() == windows.take(i + 1).to_set());
            }
        }
        i = i + 1;
    }
    proof {
        assert(i == norm@.len() + 1);
        assert(windows.take(i as int) =~= windows);
    }
    r
}

// ---------------------------------------------------------------------------
// Laws.
// ---------------------------------------------------------------------------

/// Trigram count law: a non-empty token of length `n` yields exactly
/// `n + 1` windows before de-duplication, and at most that many distinct
/// trigrams after it.  (The padded token has `n + 3` characters, hence
/// `n + 1` windows of width three.)
pub proof fn lemma_trigram_count(tok: Seq<char>)
    requires
        tok.len() > 0,
    ensures
        trigram_seq(tok).len() == tok.len() + 1,
        trigram_seq(tok).to_set().len() <= tok.len() + 1,
{
    trigram_seq(tok).lemma_cardinality_of_set();
}

proof fn lemma_filter_keep_all(s: Seq<char>)
    requires
        forall|i: int| 0 <= i < s.len() ==> keep_char(#[trigger] s[i]),
    ensures
        filter_keep(s) == s,
    decreases s.len(),
{
    if s.len() > 0 {
        lemma_filter_keep_all(s.drop_last());
        assert(filter_keep(s.drop_last()).push(s.last()) =~= s);
    }
}

proof fn lemma_filter_keep_chars(s: Seq<char>)
    ensures
        forall|i: int| 0 <= i < filter_keep(s).len() ==> (s.contains(
            #[trigger] filter_keep(s)[i],
        ) && keep_char(filter_keep(s)[i])),
    decreases s.len(),
{
    if s.len() > 0 {
        lemma_filter_keep_chars(s.drop_last());
        let f = filter_keep(s);
        let fr = filter_keep(s.drop_last());
        assert forall|i: int| 0 <= i < f.len() implies (s.contains(#[trigger] f[i])
            && keep_char(f[i])) by {
            if i < fr.len() {
                assert(f[i] == fr[i]);
                let j = choose|j: int| 0 <= j < s.drop_last().len() && s.drop_last()[j] == fr[i];
                assert(s[j] == fr[i]);
            } else {
                assert(f[i] == s.last());
                assert(s[s.len() - 1] == s.last());
            }
        }
    }
}

proof fn lemma_trim_start_within(s: Seq<char>)
    ensures
        trim_start_spec(s).len() <= s.len(),
        forall|i: int| 0 <= i < trim_start_spec(s).len() ==> #[trigger] trim_start_spec(s)[i]
            == s[s.len() - trim_start_spec(s).len() + i],
        trim_start_spec(s).len() > 0 ==> !is_space_char(trim_start_spec(s)[0]),
    decreases s.len(),
{
    let ts = trim_start_spec(s);
    if s.len() > 0 && is_space_char(s[0]) {
        lemma_trim_start_within(s.drop_first());
        assert(ts == trim_start_spec(s.drop_first()));
        assert forall|i: int| 0 <= i < ts.len() implies #[trigger] ts[i] == s[s.len() - ts.len()
            + i] by {
            assert(ts[i] == s.drop_first()[s.drop_first().len() - ts.len() + i]);
        }
    }
}

proof fn lemma_trim_end_within(s: Seq<char>)
    ensures
        trim_end_spec(s).len() <= s.len(),
        forall|i: int| 0 <= i < trim_end_spec(s).len() ==> #[trigger] trim_end_spec(s)[i] == s[i],
        trim_end_spec(s).len() > 0 ==> !is_space_char(trim_end_spec(s).last()),
    decreases s.len(),
{
    let te = trim_end_spec(s);
    if s.len() > 0 && is_space_char(s.last()) {
        lemma_trim_end_within(s.drop_last());
        assert(te == trim_end_spec(s.drop_last()));
        assert forall|i: int| 0 <= i < te.len() implies #[trigger] te[i] == s[i] by {
            assert(te[i] == s.drop_last()[i]);
        }
    }
}

/// Every character of a normalised text survives the keep-filter, is
/// ASCII-lowercase-stable when the input is ASCII, and the result is
/// trimmed.
proof fn lemma_normalised_shape(t: Seq<char>)
    requires
        ascii_seq(t),
    ensures
        ascii_seq(normalise_spec(t)),
        forall|i: int| 0 <= i < normalise_spec(t).len() ==> keep_char(
            #[trigger] normalise_spec(t)[i],
        ),
        forall|i: int| 0 <= i < normalise_spec(t).len() ==> ascii_lower_char(
            #[trigger] normalise_spec(t)[i],
        ) == normalise_spec(t)[i],
        normalise_spec(t).len() > 0 ==> !is_space_char(normalise_spec(t)[0]),
        normalise_spec(t).len() > 0 ==> !is_space_char(normalise_spec(t).last()),
{
    let f = filter_keep(t);
    lemma_filter_keep_chars(t);
    assert(ascii_seq(f));
    let l = lower_of(f);
    assert(l == f.map_values(|c: char| ascii_lower_char(c)));
    assert(forall|i: int| 0 <= i < l.len() ==> #[trigger] l[i] == ascii_lower_char(f[i]));
    assert(forall|i: int| 0 <= i < l.len() ==> ascii_char(#[trigger] l[i]) && keep_char(l[i])
        && ascii_lower_char(l[i]) == l[i]) by {
        assert(forall|c: char| ascii_char(c) && keep_char(c) ==> ascii_char(
            #[trigger] ascii_lower_char(c),
        ) && keep_char(ascii_lower_char(c)) && ascii_lower_char(ascii_lower_char(c))
            == ascii_lower_char(c));
    }
    let ts = trim_start_spec(l);
    lemma_trim_start_within(l);
    let te = trim_end_spec(ts);
    lemma_trim_end_within(ts);
    assert(te == normalise_spec(t));
    assert forall|i: int| 0 <= i < te.len() implies ascii_char(#[trigger] te[i]) && keep_char(
        te[i],
    ) && ascii_lower_char(te[i]) == te[i] by {
        assert(te[i] == ts[i]);
        assert(ts[i] == l[l.len() - ts.len() + i]);
    }
    if te.len() > 0 {
        assert(te[0] == ts[0]);
        assert(!is_space_char(te[0]));
    }
}

/// Normalisation is idempotent on ASCII text.
pub proof fn lemma_normalise_idempotent(t: Seq<char>)
    requires
        ascii_seq(t),
    ensures
        normalise_spec(normalise_spec(t)) == normalise_spec(t),
{
    let u = normalise_spec(t);
    lemma_normalised_shape(t);
    lemma_filter_keep_all(u);
    assert(lower_of(u) =~= u);
    if u.len() > 0 {
        assert(trim_start_spec(u) == u);
        assert(trim_end_spec(u) == u);
    }
}

/// Tokeniser idempotence: tokenising an already-normalised text yields the
/// same tokens as tokenising the raw text.  Stated for ASCII text; Unicode
/// case mapping can introduce characters (for example a combining mark from
/// lowercasing a dotted capital I) that a second normalisation pass would
/// remove.
pub proof fn lemma_tokenise_normalise(t: Seq<char>)
    requires
        ascii_seq(t),
    ensures
        extract_tokens_spec(normalise_spec(t)) == extract_tokens_spec(t),
{
    lemma_normalise_idempotent(t);
}

} // verus!
