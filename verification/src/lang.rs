//! The language filter: mapping configured language codes to the
//! detector's languages, and deciding whether a page text is in one of
//! the accepted languages. Detection itself is done by the `whatlang`
//! crate behind trusted wrappers; the code table, the fragment scan
//! and the acceptance test are verified.
use vstd::prelude::*;

verus! {

#[verifier::external_type_specification]
#[verifier::external_body]
pub struct ExDetector(whatlang::Detector);

/// A language the crawler can be told to accept.
#[derive(Clone, Copy, Debug, Hash, PartialEq, Eq, Structural)]
pub enum Lang {
    Ara,
    Eng,
    Fra,
}

/// An ASCII upper-case letter mapped to lower case; any other
/// character is unchanged.
pub open spec fn lower_char(c: char) -> char {
    if c == 'A' {
        'a'
    } else if c == 'B' {
        'b'
    } else if c == 'C' {
        'c'
    } else if c == 'D' {
        'd'
    } else if c == 'E' {
        'e'
    } else if c == 'F' {
        'f'
    } else if c == 'G' {
        'g'
    } else if c == 'H' {
        'h'
    } else if c == 'I' {
        'i'
    } else if c == 'J' {
        'j'
    } else if c == 'K' {
        'k'
    } else if c == 'L' {
        'l'
    } else if c == 'M' {
        'm'
    } else if c == 'N' {
        'n'
    } else if c == 'O' {
        'o'
    } else if c == 'P' {
        'p'
    } else if c == 'Q' {
        'q'
    } else if c == 'R' {
        'r'
    } else if c == 'S' {
        's'
    } else if c == 'T' {
        't'
    } else if c == 'U' {
        'u'
    } else if c == 'V' {
        'v'
    } else if c == 'W' {
        'w'
    } else if c == 'X' {
        'x'
    } else if c == 'Y' {
        'y'
    } else if c == 'Z' {
        'z'
    } else {
        c
    }
}

/// A string with its ASCII letters lowered.
pub open spec fn ascii_lower(s: Seq<char>) -> Seq<char> {
    Seq::new(s.len(), |i: int| lower_char(s[i]))
}

fn lower_char_x(c: char) -> (r: char)
    ensures
        r == lower_char(c),
{
    if c == 'A' {
        'a'
    } else if c == 'B' {
        'b'
    } else if c == 'C' {
        'c'
    } else if c == 'D' {
        'd'
    } else if c == 'E' {
        'e'
    } else if c == 'F' {
        'f'
    } else if c == 'G' {
        'g'
    } else if c == 'H' {
        'h'
    } else if c == 'I' {
        'i'
    } else if c == 'J' {
        'j'
    } else if c == 'K' {
        'k'
    } else if c == 'L' {
        'l'
    } else if c == 'M' {
        'm'
    } else if c == 'N' {
        'n'
    } else if c == 'O' {
        'o'
    } else if c == 'P' {
        'p'
    } else if c == 'Q' {
        'q'
    } else if c == 'R' {
        'r'
    } else if c == 'S' {
        's'
    } else if c == 'T' {
        't'
    } else if c == 'U' {
        'u'
    } else if c == 'V' {
        'v'
    } else if c == 'W' {
        'w'
    } else if c == 'X' {
        'x'
    } else if c == 'Y' {
        'y'
    } else if c == 'Z' {
        'z'
    } else {
        c
    }
}

/// Compares a string against a lower-case word, ignoring ASCII case on
/// the left side.
fn eq_ignore_ascii_case(a: &str, b: &str) -> (r: bool)
    ensures
        r == (ascii_lower(a@) == b@),
{
    let la = a.unicode_len();
    let lb = b.unicode_len();
    if la != lb {
        return false;
    }
    let mut i: usize = 0;
    while i < la
        invariant
            la == a@.len(),
            la == b@.len(),
            i <= la,
            forall|j: int| 0 <= j < i ==> lower_char(a@[j]) == b@[j],
        decreases la - i,
    {
        if lower_char_x(a.get_char(i)) != b.get_char(i) {
            proof {
                assert(ascii_lower(a@)[i as int] != b@[i as int]);
            }
            return false;
        }
        i = i + 1;
    }
    proof {
        assert(ascii_lower(a@) =~= b@);
    }
    true
}

/// The language a configuration code names, ignoring ASCII case;
/// unknown codes name none.
pub open spec fn spec_str_to_lang(s: Seq<char>) -> Option<Lang> {
    if ascii_lower(s) == "arabic"@ || ascii_lower(s) == "ar"@ {
        Some(Lang::Ara)
    } else if ascii_lower(s) == "english"@ || ascii_lower(s) == "en"@ {
        Some(Lang::Eng)
    } else if ascii_lower(s) == "french"@ || ascii_lower(s) == "fr"@ {
        Some(Lang::Fra)
    } else {
        None
    }
}

fn str_to_lang(lang: &str) -> (r: Option<Lang>)
    ensures
        r == spec_str_to_lang(lang@),
{
    if eq_ignore_ascii_case(lang, "arabic") || eq_ignore_ascii_case(lang, "ar") {
        Some(Lang::Ara)
    } else if eq_ignore_ascii_case(lang, "english") || eq_ignore_ascii_case(lang, "en") {
        Some(Lang::Eng)
    } else if eq_ignore_ascii_case(lang, "french") || eq_ignore_ascii_case(lang, "fr") {
        Some(Lang::Fra)
    } else {
        None
    }
}

/// The languages named by a list of codes, in order, unknown codes
/// dropped.
pub open spec fn spec_lang_list(ss: Seq<Seq<char>>) -> Seq<Lang>
    decreases ss.len(),
{
    if ss.len() == 0 {
        Seq::empty()
    } else {
        spec_lang_list(ss.drop_last()) + match spec_str_to_lang(ss.last()) {
            Some(l) => seq![l],
            None => Seq::empty(),
        }
    }
}

/// Maps configured language codes to detector languages, dropping
/// codes the table does not know.
pub fn lang_builder(langs: Vec<&str>) -> (r: Vec<Lang>)
    ensures
        r@ == spec_lang_list(langs.deep_view()),
{
    let mut detect_langs: Vec<Lang> = Vec::new();
    let n = langs.len();
    let mut i: usize = 0;
    while i < n
        invariant
            n == langs@.len(),
            i <= n,
            detect_langs@ == spec_lang_list(langs.deep_view().take(i as int)),
        decreases n - i,
    {
        proof {
            assert(langs.deep_view().take(i + 1).drop_last() =~= langs.deep_view().take(i as int));
            assert(langs.deep_view().take(i + 1).last() == langs.deep_view()[i as int]);
        }
        if let Some(language) = str_to_lang(langs[i]) {
            detect_langs.push(language);
            proof {
                assert(detect_langs@ =~= spec_lang_list(langs.deep_view().take(i + 1)));
            }
        } else {
            proof {
                assert(detect_langs@ =~= spec_lang_list(langs.deep_view().take(i + 1)));
            }
        }
        i = i + 1;
    }
    proof {
        assert(langs.deep_view().take(n as int) =~= langs.deep_view());
    }
    detect_langs
}

/// The language detector together with the allow-list it was built
/// from, which the detection contracts refer to. The fields travel
/// only together: a detector is built by `detector_with_allowlist`
/// alone, so the kept allow-list cannot be detached from it.
pub struct LangDetector {
    pub(crate) detector: whatlang::Detector,
    pub(crate) langs: Vec<Lang>,
}

impl LangDetector {
    /// The allow-list the detector was built from.
    pub closed spec fn spec_langs(self) -> Seq<Lang> {
        self.langs@
    }
}

/// What the detector answers for a text, as a function of the
/// allow-list it was built with and the text alone.
pub uninterp spec fn detected_lang(allow: Seq<Lang>, text: Seq<char>) -> Option<Lang>;

/// Relies on `whatlang::Detector::with_allowlist`; the allow-list is
/// converted one language at a time and kept beside the detector.
#[verifier::external_body]
fn detector_with_allowlist(langs: Vec<Lang>) -> (r: LangDetector)
    ensures
        r.spec_langs() == langs@,
{
    let mut list: Vec<whatlang::Lang> = Vec::new();
    for l in langs.iter() {
        list.push(
            match l {
                Lang::Ara => whatlang::Lang::Ara,
                Lang::Eng => whatlang::Lang::Eng,
                Lang::Fra => whatlang::Lang::Fra,
            },
        );
    }
    LangDetector { detector: whatlang::Detector::with_allowlist(list), langs }
}

/// Relies on `whatlang::Detector::detect_lang`, whose answer depends
/// on the text and the allow-list alone; languages outside the
/// crawler's table come back as none.
#[verifier::external_body]
fn detect_lang(det: &LangDetector, text: &str) -> (r: Option<Lang>)
    ensures
        r == detected_lang(det.spec_langs(), text@),
{
    match det.detector.detect_lang(text) {
        Some(whatlang::Lang::Ara) => Some(Lang::Ara),
        Some(whatlang::Lang::Eng) => Some(Lang::Eng),
        Some(whatlang::Lang::Fra) => Some(Lang::Fra),
        _ => None,
    }
}

/// Builds the shared detector from configuration codes.
pub fn build_langdetector(langs: Vec<&str>) -> (r: LangDetector)
    ensures
        r.spec_langs() == spec_lang_list(langs.deep_view()),
{
    let list = lang_builder(langs);
    detector_with_allowlist(list)
}

/// A text split at every ASCII space, as `str::split(' ')` splits it:
/// empty fragments are kept and the result is never empty.
pub open spec fn split_on_spaces(s: Seq<char>) -> Seq<Seq<char>>
    decreases s.len(),
{
    if s.len() == 0 {
        seq![Seq::empty()]
    } else if s.last() == ' ' {
        split_on_spaces(s.drop_last()).push(Seq::empty())
    } else {
        let rest = split_on_spaces(s.drop_last());
        rest.update(rest.len() - 1, rest.last().push(s.last()))
    }
}

/// Relies on `str::split` with a space separator; fragments are owned
/// copies in order.
#[verifier::external_body]
fn split_spaces(s: &str) -> (r: Vec<String>)
    ensures
        r.deep_view() == split_on_spaces(s@),
{
    s.split(' ').map(|p| p.to_string()).collect()
}

/// Whether a detector answer lies in the accepted set.
pub open spec fn lang_in(l: Option<Lang>, accept: Seq<Lang>) -> bool {
    match l {
        Some(l) => accept.contains(l),
        None => false,
    }
}

/// Whether a text counts as one of the accepted languages: either the
/// whole text is detected as one, or some space-separated fragment is.
pub open spec fn spec_has_language(allow: Seq<Lang>, text: Seq<char>, accept: Seq<Lang>) -> bool {
    lang_in(detected_lang(allow, text), accept) || exists|i: int|
        0 <= i < split_on_spaces(text).len() && lang_in(
            detected_lang(allow, split_on_spaces(text)[i]),
            accept,
        )
}

fn contains_lang(langs: &[Lang], l: Lang) -> (r: bool)
    ensures
        r == langs@.contains(l),
{
    let n = langs.len();
    let mut i: usize = 0;
    while i < n
        invariant
            n == langs@.len(),
            i <= n,
            forall|j: int| 0 <= j < i ==> langs@[j] != l,
        decreases n - i,
    {
        if langs[i] == l {
            return true;
        }
        i = i + 1;
    }
    false
}

/// Decides whether the text is in one of the accepted languages,
/// first on the whole text, then fragment by fragment.
pub fn has_language(detector: &LangDetector, text: &str, languages: &[Lang]) -> (r: bool)
    ensures
        r == spec_has_language(detector.spec_langs(), text@, languages@),
{
    if let Some(lang) = detect_lang(detector, text) {
        if contains_lang(languages, lang) {
            return true;
        }
    }
    let pieces = split_spaces(text);
    let n = pieces.len();
    let mut i: usize = 0;
    while i < n
        invariant
            n == pieces@.len(),
            pieces.deep_view() == split_on_spaces(text@),
            forall|j: int|
                0 <= j < i ==> !lang_in(
                    detected_lang(detector.spec_langs(), split_on_spaces(text@)[j]),
                    languages@,
                ),
            i <= n,
            !lang_in(detected_lang(detector.spec_langs(), text@), languages@),
        decreases n - i,
    {
        if let Some(lang) = detect_lang(detector, pieces[i].as_str()) {
            if contains_lang(languages, lang) {
                proof {
                    assert(pieces.deep_view()[i as int] == pieces@[i as int]@);
                }
                return true;
            }
        }
        proof {
            assert(pieces.deep_view()[i as int] == pieces@[i as int]@);
        }
        i = i + 1;
    }
    false
}

/// With an empty accept list no text counts as accepted.
pub proof fn lemma_has_language_empty_accept(allow: Seq<Lang>, text: Seq<char>)
    ensures
        !spec_has_language(allow, text, Seq::empty()),
{
}

/// Acceptance is monotone in the accept list: whatever counts as
/// accepted under a list still counts under any superset of it.
pub proof fn lemma_has_language_monotone(
    allow: Seq<Lang>,
    text: Seq<char>,
    accept1: Seq<Lang>,
    accept2: Seq<Lang>,
)
    requires
        forall|l: Lang| accept1.contains(l) ==> accept2.contains(l),
        spec_has_language(allow, text, accept1),
    ensures
        spec_has_language(allow, text, accept2),
{
    if lang_in(detected_lang(allow, text), accept1) {
        assert(lang_in(detected_lang(allow, text), accept2));
    } else {
        let i = choose|i: int|
            0 <= i < split_on_spaces(text).len() && lang_in(
                detected_lang(allow, split_on_spaces(text)[i]),
                accept1,
            );
        assert(lang_in(detected_lang(allow, split_on_spaces(text)[i]), accept2));
    }
}

} // verus!
