//! From one rule line to a domain name, or to the reason why it has none.

use crate::text::{chars_of, has_prefix_at, is_whitespace, string_of, trim, trimmed};
use publicsuffix::{Host, List};
use vstd::prelude::*;

verus! {

/// `s` without `marker` in front, where it stands there; else `s`.
pub open spec fn without_prefix(s: Seq<char>, marker: Seq<char>) -> Seq<char> {
    if marker.is_prefix_of(s) {
        s.skip(marker.len() as int)
    } else {
        s
    }
}

/// A trimmed line after the six markers were tried, each once and in this
/// order. A marker that a later removal brings to the front stays.
pub open spec fn stripped(s: Seq<char>) -> Seq<char> {
    let s = without_prefix(s, "||"@);
    let s = without_prefix(s, "|"@);
    let s = without_prefix(s, "http://"@);
    let s = without_prefix(s, "https://"@);
    let s = without_prefix(s, "*"@);
    without_prefix(s, "."@)
}

/// `s` with every `*` replaced by `/`.
pub open spec fn translated(s: Seq<char>) -> Seq<char> {
    s.map_values(|c: char| if c == '*' { '/' } else { c })
}

/// The host candidate of a rule line: the line trimmed, stripped of its
/// markers, and with its remaining wildcards translated.
pub open spec fn candidate(line: Seq<char>) -> Seq<char> {
    translated(stripped(trimmed(line)))
}

/// Whether `m` is one of the six markers.
pub open spec fn is_marker(m: Seq<char>) -> bool {
    ||| m == "||"@
    ||| m == "|"@
    ||| m == "http://"@
    ||| m == "https://"@
    ||| m == "*"@
    ||| m == "."@
}

/// Whether `d` is free of rule syntax: no whitespace at either end, no
/// marker in front, no wildcard anywhere.
pub open spec fn is_clean(d: Seq<char>) -> bool {
    &&& d.len() > 0 ==> !is_whitespace(d.first()) && !is_whitespace(d.last())
    &&& d.len() > 0 ==> d.first() != '|' && d.first() != '.'
    &&& !"http://"@.is_prefix_of(d)
    &&& !"https://"@.is_prefix_of(d)
    &&& forall|i: int| 0 <= i < d.len() ==> d[i] != '*'
}

/// What is free of rule syntax is its own candidate.
pub proof fn lemma_candidate_of_clean(d: Seq<char>)
    requires
        is_clean(d),
    ensures
        candidate(d) == d,
{
    reveal_strlit("||");
    reveal_strlit("|");
    reveal_strlit("*");
    reveal_strlit(".");
    assert(trimmed(d) == d);
    if d.len() > 0 {
        assert("||"@[0] == '|' && "|"@[0] == '|' && "*"@[0] == '*' && "."@[0] == '.');
        assert(d.subrange(0, 1)[0] == d[0]);
        if d.len() > 1 {
            assert(d.subrange(0, 2)[0] == d[0]);
        }
    }
    assert(stripped(d) == d);
    assert(translated(d) =~= d);
}

/// A marker in front of what is free of rule syntax is stripped, and nothing
/// else is: the candidate is what stood behind the marker.
pub proof fn lemma_candidate_behind_marker(m: Seq<char>, d: Seq<char>)
    requires
        is_marker(m),
        is_clean(d),
    ensures
        candidate(m + d) == d,
{
    reveal_strlit("||");
    reveal_strlit("|");
    reveal_strlit("http://");
    reveal_strlit("https://");
    reveal_strlit("*");
    reveal_strlit(".");
    let line = m + d;
    assert(line.first() == m.first());
    assert(line.last() == if d.len() > 0 { d.last() } else { m.last() });
    assert(trimmed(line) == line);
    lemma_candidate_of_clean(d);
    assert(m =~= line.subrange(0, m.len() as int));
    assert(line.skip(m.len() as int) =~= d);
    assert(without_prefix(line, m) == d);
    // No marker whose turn comes before that of `m` stands in front.
    if m != "||"@ && "||"@.is_prefix_of(line) {
        assert(line.subrange(0, 2)[0] == '|' && line.subrange(0, 2)[1] == '|');
        assert(line[0] == m[0]);
        assert(line[1] == d[0]);
    }
    if m != "||"@ && m != "|"@ && "|"@.is_prefix_of(line) {
        assert(line.subrange(0, 1)[0] == '|');
    }
    if m != "http://"@ && "http://"@.is_prefix_of(line) {
        assert(line.subrange(0, 7)[0] == 'h' && line.subrange(0, 7)[4] == ':');
        assert(line[0] == m[0]);
        assert(line[4] == m[4]);
    }
    if m != "https://"@ && "https://"@.is_prefix_of(line) {
        assert(line.subrange(0, 8)[0] == 'h' && line.subrange(0, 8)[4] == 's');
        assert(line[0] == m[0]);
        assert(line[4] == m[4]);
    }
    if m == "."@ && "*"@.is_prefix_of(line) {
        assert(line.subrange(0, 1)[0] == '*');
    }
    assert(stripped(line) == d);
}

/// A wildcard and the dot behind it are both stripped, the dot because its
/// turn comes after the wildcard's: of `*.` and what is free of rule syntax
/// the candidate is what stood behind the dot.
pub proof fn lemma_candidate_behind_wildcard_dot(d: Seq<char>)
    requires
        is_clean(d),
    ensures
        candidate("*."@ + d) == d,
{
    reveal_strlit("*.");
    reveal_strlit("||");
    reveal_strlit("|");
    reveal_strlit("http://");
    reveal_strlit("https://");
    reveal_strlit("*");
    reveal_strlit(".");
    let line = "*."@ + d;
    let rest = "."@ + d;
    assert(line.first() == '*');
    assert(line.last() == if d.len() > 0 { d.last() } else { '.' });
    assert(trimmed(line) == line);
    lemma_candidate_of_clean(d);
    if "||"@.is_prefix_of(line) {
        assert(line.subrange(0, 2)[0] == '|');
    }
    if "|"@.is_prefix_of(line) {
        assert(line.subrange(0, 1)[0] == '|');
    }
    if "http://"@.is_prefix_of(line) {
        assert(line.subrange(0, 7)[0] == 'h');
    }
    if "https://"@.is_prefix_of(line) {
        assert(line.subrange(0, 8)[0] == 'h');
    }
    assert("*"@ =~= line.subrange(0, 1));
    assert(line.skip(1) =~= rest);
    assert(without_prefix(line, "*"@) == rest);
    assert("."@ =~= rest.subrange(0, 1));
    assert(rest.skip(1) =~= d);
    assert(without_prefix(rest, "."@) == d);
    assert(stripped(line) == d);
}

/// The index behind `marker` where it stands in `t` at index `at`; else `at`.
fn skip_marker(t: &Vec<char>, at: usize, marker: &str) -> (next: usize)
    requires
        at <= t.len(),
    ensures
        at <= next <= t.len(),
        t@.skip(next as int) == without_prefix(t@.skip(at as int), marker@),
{
    if has_prefix_at(t, at, marker) {
        let k: usize = marker.unicode_len();
        assert(t@.skip(at as int).skip(k as int) == t@.skip(at + k));
        at + k
    } else {
        at
    }
}

/// Computes the host candidate of a rule line.
pub fn rule_candidate(line: &Vec<char>) -> (out: Vec<char>)
    ensures
        out@ == candidate(line@),
{
    let t = trim(line);
    let n: usize = t.len();
    assert(t@.skip(0) == t@);
    let at = skip_marker(&t, 0, "||");
    let at = skip_marker(&t, at, "|");
    let at = skip_marker(&t, at, "http://");
    let at = skip_marker(&t, at, "https://");
    let at = skip_marker(&t, at, "*");
    let at = skip_marker(&t, at, ".");
    let ghost rest = t@.skip(at as int);
    assert(rest == stripped(t@));
    let mut out: Vec<char> = Vec::new();
    let mut i: usize = at;
    while i < n
        invariant
            at <= i <= n == t.len(),
            rest == t@.skip(at as int),
            out@ == translated(rest.take(i - at)),
        decreases n - i,
    {
        let c = t[i];
        out.push(if c == '*' { '/' } else { c });
        assert(rest.take(i + 1 - at) == rest.take(i - at).push(c));
        i += 1;
    }
    assert(rest.take(n - at) == rest);
    out
}

/// What the suffix classifier makes of a URL, as contracts see it.
pub enum Classification {
    /// The URL or its host is malformed; `message` says how.
    Failure { message: Seq<char> },
    /// The host is an IP address, `host` in its canonical form.
    Ip { host: Seq<char> },
    /// The host is a domain name, `host` in its canonical form, with or
    /// without a public suffix that the list knows.
    Domain { host: Seq<char>, known_suffix: bool },
}

/// What the suffix classifier makes of a URL.
#[derive(Debug)]
pub enum Classified {
    Failure { message: String },
    Ip { host: String },
    Domain { host: String, known_suffix: bool },
}

impl View for Classified {
    type V = Classification;

    open spec fn view(&self) -> Classification {
        match self {
            Classified::Failure { message } => Classification::Failure { message: message@ },
            Classified::Ip { host } => Classification::Ip { host: host@ },
            Classified::Domain { host, known_suffix } => Classification::Domain {
                host: host@,
                known_suffix: *known_suffix,
            },
        }
    }
}

/// The public suffix list of the crate `publicsuffix`. Nothing of what is
/// inside is known here but the names below.
#[verifier::external_type_specification]
#[verifier::external_body]
pub struct ExList(List);

/// The rules that a suffix list holds: each rule of the list's text, without
/// the `!` of an exception, and the rule `*` that a list built from text adds.
pub uninterp spec fn suffix_rules(list: List) -> Set<Seq<char>>;

/// What `List::parse_url` makes of `url` under a list that holds `rules`.
pub uninterp spec fn classification(rules: Set<Seq<char>>, url: Seq<char>) -> Classification;

/// Calls `List::parse_url` of the crate `publicsuffix` on `url` and hands out
/// what the result shows: of an error its display form; of a host its display
/// form; of a domain also `Domain::has_known_suffix`.
///
/// Taken on trust from the crate's source: the call parses the URL, looks the
/// labels of its host up among the list's rules, and reads nothing else, so
/// that what is handed out is a function of the rules and of the URL. The
/// contract gives that function a name and says nothing of its values.
#[verifier::external_body]
fn classify(list: &List, url: &str) -> (c: Classified)
    ensures
        c@ == classification(suffix_rules(*list), url@),
{
    match list.parse_url(url) {
        Ok(Host::Domain(domain)) => Classified::Domain {
            host: domain.to_string(),
            known_suffix: domain.has_known_suffix(),
        },
        Ok(Host::Ip(ip)) => Classified::Ip { host: ip.to_string() },
        Err(error) => Classified::Failure { message: error.to_string() },
    }
}

/// The result of normalizing a line, as contracts see it: the domain, or the
/// reason why there is none.
pub type Outcome = Result<Seq<char>, Seq<char>>;

/// A normalization result as contracts see it.
pub open spec fn outcome(r: Result<String, String>) -> Outcome {
    match r {
        Ok(domain) => Ok(domain@),
        Err(reason) => Err(reason@),
    }
}

/// The result of normalizing a line whose candidate was classified as `c`:
/// a domain with a known suffix is the result; anything else is an error
/// that names the host or, after a failure, the candidate.
pub open spec fn interpreted(c: Classification, candidate: Seq<char>) -> Outcome {
    match c {
        Classification::Failure { message } => Err(message + " in "@ + candidate),
        Classification::Ip { host } => Err(host + " is a IP."@),
        Classification::Domain { host, known_suffix } => if known_suffix {
            Ok(host)
        } else {
            Err(host + " is invalid."@)
        },
    }
}

/// The URL that stands for a candidate before the classifier.
pub open spec fn url_of(candidate: Seq<char>) -> Seq<char> {
    "http://"@ + candidate
}

/// The result of normalizing `line` under a list that holds `rules`.
pub open spec fn normalized(rules: Set<Seq<char>>, line: Seq<char>) -> Outcome {
    interpreted(classification(rules, url_of(candidate(line))), candidate(line))
}

/// Whether the classifier, under `rules`, takes `d` for a domain with a known
/// suffix that is written as it would write it.
pub open spec fn is_canonical(rules: Set<Seq<char>>, d: Seq<char>) -> bool {
    classification(rules, url_of(d)) == (Classification::Domain { host: d, known_suffix: true })
}

/// Normalization leaves a normalized domain as it is: a name that is free of
/// rule syntax and that the classifier knows in this form is its own result.
pub proof fn lemma_normalized_canonical(rules: Set<Seq<char>>, d: Seq<char>)
    requires
        is_clean(d),
        is_canonical(rules, d),
    ensures
        normalized(rules, d) == Outcome::Ok(d),
{
    lemma_candidate_of_clean(d);
}

/// A marker in front of a line that is free of rule syntax changes nothing:
/// with it and without it the line has the same result.
pub proof fn lemma_normalized_behind_marker(rules: Set<Seq<char>>, m: Seq<char>, d: Seq<char>)
    requires
        is_marker(m),
        is_clean(d),
    ensures
        normalized(rules, m + d) == normalized(rules, d),
{
    lemma_candidate_of_clean(d);
    lemma_candidate_behind_marker(m, d);
}

/// A line whose candidate is an IP address has no domain: its result is the
/// error that says so of the address.
pub proof fn lemma_ip_is_rejected(rules: Set<Seq<char>>, line: Seq<char>)
    requires
        classification(rules, url_of(candidate(line))) is Ip,
    ensures
        normalized(rules, line) == Outcome::Err(
            classification(rules, url_of(candidate(line)))->Ip_host + " is a IP."@,
        ),
{
}

/// A line whose candidate is a domain without a known public suffix has no
/// domain: its result is the error that says so of the host.
pub proof fn lemma_unknown_suffix_is_rejected(rules: Set<Seq<char>>, line: Seq<char>)
    requires
        classification(rules, url_of(candidate(line))) matches Classification::Domain {
            known_suffix,
            ..
        } && !known_suffix,
    ensures
        normalized(rules, line) == Outcome::Err(
            classification(rules, url_of(candidate(line)))->Domain_host + " is invalid."@,
        ),
{
}

/// Only a domain with a known public suffix is a result, and the result is
/// the host as the classifier writes it.
pub proof fn lemma_result_is_known_domain(rules: Set<Seq<char>>, line: Seq<char>, d: Seq<char>)
    ensures
        normalized(rules, line) == Outcome::Ok(d) <==> classification(
            rules,
            url_of(candidate(line)),
        ) == (Classification::Domain { host: d, known_suffix: true }),
{
}

/// Turns a classification into the result of normalizing the line whose
/// candidate it was made from.
pub fn interpret(c: Classified, candidate: &str) -> (r: Result<String, String>)
    ensures
        outcome(r) == interpreted(c@, candidate@),
{
    match c {
        Classified::Failure { message } => Err(message.concat(" in ").concat(candidate)),
        Classified::Ip { host } => Err(host.concat(" is a IP.")),
        Classified::Domain { host, known_suffix } => if known_suffix {
            Ok(host)
        } else {
            Err(host.concat(" is invalid."))
        },
    }
}

/// Normalizes a rule line given by its characters.
pub fn normalize_chars(list: &List, line: &Vec<char>) -> (r: Result<String, String>)
    ensures
        outcome(r) == normalized(suffix_rules(*list), line@),
{
    let candidate = string_of(&rule_candidate(line));
    let url = String::from_str("http://").concat(candidate.as_str());
    interpret(classify(list, url.as_str()), candidate.as_str())
}

/// Normalizes a rule line: `Ok` with the canonical domain name where the
/// line's candidate is a domain with a known public suffix, else `Err` with
/// the reason.
pub fn normalize(list: &List, line: &str) -> (r: Result<String, String>)
    ensures
        outcome(r) == normalized(suffix_rules(*list), line@),
{
    normalize_chars(list, &chars_of(line))
}

} // verus!
