//! From the text of a rule feed to the lines of the configuration.

use crate::filter::{noise, skipped};
use crate::normalize::{normalize_chars, normalized, suffix_rules, Outcome};
use crate::order::{
    lemma_strictly_ascending_distinct, lemma_strictly_ascending_unique, sorted_distinct,
    strictly_ascending,
};
use crate::text::{
    chars_of, lemma_trimmed_idempotent, lines_of, split_lines, string_of, texts, trim, views,
};
use publicsuffix::List;
use vstd::prelude::*;

verus! {

/// The lines that are not skipped, in their order.
pub open spec fn kept(lines: Seq<Seq<char>>) -> Seq<Seq<char>> {
    lines.filter(|line: Seq<char>| !skipped(line))
}

/// What normalization makes of each line that is not skipped, in the order of
/// the lines.
pub open spec fn outcomes(rules: Set<Seq<char>>, lines: Seq<Seq<char>>) -> Seq<Outcome> {
    kept(lines).map_values(|line: Seq<char>| normalized(rules, line))
}

/// The domains among the outcomes, in their order.
pub open spec fn successes(outcomes: Seq<Outcome>) -> Seq<Seq<char>> {
    outcomes.filter_map(
        |r: Outcome|
            match r {
                Ok(domain) => Some(domain),
                Err(_) => None,
            },
    )
}

/// The reasons of failure among the outcomes, in their order.
pub open spec fn failures(outcomes: Seq<Outcome>) -> Seq<Seq<char>> {
    outcomes.filter_map(
        |r: Outcome|
            match r {
                Ok(_) => None,
                Err(reason) => Some(reason),
            },
    )
}

/// The configuration line that sends `domain` to the servers of `group`.
pub open spec fn output_line(domain: Seq<char>, group: Seq<char>) -> Seq<char> {
    "nameserver /"@ + domain + "/"@ + group
}

/// The configuration lines of `domains`, in their order.
pub open spec fn rendered(domains: Seq<Seq<char>>, group: Seq<char>) -> Seq<Seq<char>> {
    domains.map_values(|domain: Seq<char>| output_line(domain, group))
}

/// Lines with a line feed between each two, and none at the end.
pub open spec fn joined(lines: Seq<Seq<char>>) -> Seq<char>
    decreases lines.len(),
{
    if lines.len() == 0 {
        Seq::empty()
    } else if lines.len() == 1 {
        lines[0]
    } else {
        joined(lines.drop_last()) + seq!['\n'] + lines.last()
    }
}

/// Different domains have different configuration lines.
pub proof fn lemma_output_line_injective(a: Seq<char>, b: Seq<char>, group: Seq<char>)
    requires
        output_line(a, group) == output_line(b, group),
    ensures
        a == b,
{
    let head = "nameserver /"@.len() as int;
    let la = output_line(a, group);
    let lb = output_line(b, group);
    assert(la.len() == head + a.len() + "/"@.len() + group.len());
    assert(lb.len() == head + b.len() + "/"@.len() + group.len());
    assert(la.subrange(head, head + a.len()) == a);
    assert(lb.subrange(head, head + b.len()) == b);
}

/// A line more at the end is kept unless it is skipped.
pub proof fn lemma_outcomes_push(rules: Set<Seq<char>>, lines: Seq<Seq<char>>, line: Seq<char>)
    ensures
        outcomes(rules, lines.push(line)) == if skipped(line) {
            outcomes(rules, lines)
        } else {
            outcomes(rules, lines).push(normalized(rules, line))
        },
{
    reveal(Seq::filter);
    assert(lines.push(line).drop_last() == lines);
}

/// An outcome more at the end goes to the domains or to the failures.
pub proof fn lemma_outcome_push(
    outcomes: Seq<Outcome>,
    r: Outcome,
)
    ensures
        successes(outcomes.push(r)) == match r {
            Ok(domain) => successes(outcomes).push(domain),
            Err(_) => successes(outcomes),
        },
        failures(outcomes.push(r)) == match r {
            Ok(_) => failures(outcomes),
            Err(reason) => failures(outcomes).push(reason),
        },
{
    assert(outcomes.push(r).drop_last() == outcomes);
}

/// The domains among the outcomes of `lines` are the results of the lines
/// that are not skipped.
pub proof fn lemma_successes_are_results(
    rules: Set<Seq<char>>,
    lines: Seq<Seq<char>>,
    d: Seq<char>,
)
    ensures
        successes(outcomes(rules, lines)).contains(d) <==> exists|i: int|
            0 <= i < lines.len() && !skipped(#[trigger] lines[i]) && normalized(rules, lines[i])
                == Outcome::Ok(d),
    decreases lines.len(),
{
    let found = successes(outcomes(rules, lines));
    if lines.len() == 0 {
        reveal(Seq::filter);
        assert(outcomes(rules, lines) == Seq::<Outcome>::empty());
    } else {
        let init = lines.drop_last();
        let last = lines.last();
        let before = successes(outcomes(rules, init));
        assert(lines == init.push(last));
        lemma_successes_are_results(rules, init, d);
        lemma_outcomes_push(rules, init, last);
        lemma_outcome_push(outcomes(rules, init), normalized(rules, last));
        let adds = !skipped(last) && normalized(rules, last) == Outcome::Ok(d);
        if found.contains(d) {
            let k = choose|k: int| 0 <= k < found.len() && found[k] == d;
            if k < before.len() && found != before {
                assert(before[k] == d);
            }
            if before.contains(d) {
                let i = choose|i: int|
                    0 <= i < init.len() && !skipped(#[trigger] init[i]) && normalized(
                        rules,
                        init[i],
                    ) == Outcome::Ok(d);
                assert(lines[i] == init[i]);
            } else {
                assert(adds);
                assert(lines[lines.len() - 1] == last);
            }
        }
        if exists|i: int|
            0 <= i < lines.len() && !skipped(#[trigger] lines[i]) && normalized(rules, lines[i])
                == Outcome::Ok(d) {
            let i = choose|i: int|
                0 <= i < lines.len() && !skipped(#[trigger] lines[i]) && normalized(
                    rules,
                    lines[i],
                ) == Outcome::Ok(d);
            if i < init.len() {
                assert(init[i] == lines[i]);
                assert(before.contains(d));
                let k = choose|k: int| 0 <= k < before.len() && before[k] == d;
                assert(found[k] == d);
            } else {
                assert(found == before.push(d));
                assert(found[before.len() as int] == d);
            }
        }
    }
}

/// A skipped line leaves no trace: with it and without it the lines have the
/// same outcomes.
pub proof fn lemma_skipped_line_leaves_no_trace(
    rules: Set<Seq<char>>,
    before: Seq<Seq<char>>,
    line: Seq<char>,
    after: Seq<Seq<char>>,
)
    requires
        skipped(line),
    ensures
        outcomes(rules, before.push(line) + after) == outcomes(rules, before + after),
{
    let keep = |line: Seq<char>| !skipped(line);
    Seq::filter_distributes_over_add(before.push(line), after, keep);
    Seq::filter_distributes_over_add(before, after, keep);
    assert(kept(before.push(line)) == kept(before)) by {
        reveal(Seq::filter);
        assert(before.push(line).drop_last() == before);
    }
}

/// What `process` makes of a feed.
#[derive(Debug)]
pub struct Output {
    /// The domains of the feed, each once, in ascending order.
    pub domains: Vec<String>,
    /// The configuration lines, one for each domain, in the order of the
    /// domains.
    pub lines: Vec<String>,
    /// How many of the lines that gave a domain gave one that another line
    /// gave too.
    pub duplicates_removed: usize,
    /// Why a line gave no domain, for each such line that was not skipped, in
    /// the order of the lines.
    pub errors: Vec<String>,
}

impl Output {
    /// Whether this is what the lines `lines` give for `group` under a suffix
    /// list that holds `rules`.
    pub open spec fn is_output_of(
        &self,
        rules: Set<Seq<char>>,
        lines: Seq<Seq<char>>,
        group: Seq<char>,
    ) -> bool {
        let found = successes(outcomes(rules, lines));
        &&& strictly_ascending(texts(self.domains@))
        &&& texts(self.domains@).to_set() == found.to_set()
        &&& texts(self.lines@) == rendered(texts(self.domains@), group)
        &&& self.duplicates_removed == found.len() - self.domains@.len()
        &&& texts(self.errors@) == failures(outcomes(rules, lines))
    }

    /// The domains stand in strictly ascending order, so none stands twice.
    pub proof fn lemma_domains_distinct(
        &self,
        rules: Set<Seq<char>>,
        lines: Seq<Seq<char>>,
        group: Seq<char>,
    )
        requires
            self.is_output_of(rules, lines, group),
        ensures
            texts(self.domains@).no_duplicates(),
    {
        lemma_strictly_ascending_distinct(texts(self.domains@));
    }

    /// No configuration line stands twice: each holds another domain.
    pub proof fn lemma_lines_distinct(
        &self,
        rules: Set<Seq<char>>,
        lines: Seq<Seq<char>>,
        group: Seq<char>,
    )
        requires
            self.is_output_of(rules, lines, group),
        ensures
            texts(self.lines@).no_duplicates(),
    {
        let domains = texts(self.domains@);
        let written = texts(self.lines@);
        lemma_strictly_ascending_distinct(domains);
        assert forall|i: int, j: int|
            0 <= i < written.len() && 0 <= j < written.len() && i != j implies written[i]
            != written[j] by {
            if written[i] == written[j] {
                lemma_output_line_injective(domains[i], domains[j], group);
            }
        }
    }

    /// The domains are the results of the lines that are not skipped: what a
    /// skipped line holds, and what normalization rejects, is no domain.
    pub proof fn lemma_domains_are_results(
        &self,
        rules: Set<Seq<char>>,
        lines: Seq<Seq<char>>,
        group: Seq<char>,
        d: Seq<char>,
    )
        requires
            self.is_output_of(rules, lines, group),
        ensures
            texts(self.domains@).contains(d) <==> exists|i: int|
                0 <= i < lines.len() && !skipped(#[trigger] lines[i]) && normalized(
                    rules,
                    lines[i],
                ) == Outcome::Ok(d),
    {
        lemma_successes_are_results(rules, lines, d);
        assert(texts(self.domains@).to_set().contains(d) == successes(
            outcomes(rules, lines),
        ).to_set().contains(d));
    }

    /// Lines, rules and group decide the output: two outputs of the same
    /// have the same domains, lines, count and errors.
    pub proof fn lemma_output_determined(
        &self,
        other: &Output,
        rules: Set<Seq<char>>,
        lines: Seq<Seq<char>>,
        group: Seq<char>,
    )
        requires
            self.is_output_of(rules, lines, group),
            other.is_output_of(rules, lines, group),
        ensures
            texts(self.domains@) == texts(other.domains@),
            texts(self.lines@) == texts(other.lines@),
            self.duplicates_removed == other.duplicates_removed,
            texts(self.errors@) == texts(other.errors@),
    {
        lemma_strictly_ascending_unique(texts(self.domains@), texts(other.domains@));
    }

    /// The number of domains.
    pub fn total(&self) -> (n: usize)
        ensures
            n == self.domains@.len(),
    {
        self.domains.len()
    }

    /// The number of lines that could not be normalized.
    pub fn error_count(&self) -> (n: usize)
        ensures
            n == self.errors@.len(),
    {
        self.errors.len()
    }

    /// The content of the configuration file: the lines with a line feed
    /// between each two.
    pub fn payload(&self) -> (s: String)
        ensures
            s@ == joined(texts(self.lines@)),
    {
        join_lines(&self.lines)
    }
}

/// Writes the configuration line of one domain.
pub fn render_line(domain: &str, group: &str) -> (line: String)
    ensures
        line@ == output_line(domain@, group@),
{
    String::from_str("nameserver /").concat(domain).concat("/").concat(group)
}

/// Joins lines with a line feed between each two.
pub fn join_lines(lines: &Vec<String>) -> (s: String)
    ensures
        s@ == joined(texts(lines@)),
{
    let ghost all = texts(lines@);
    let mut s = String::new();
    let n: usize = lines.len();
    let mut i: usize = 0;
    while i < n
        invariant
            i <= n == lines.len(),
            all == texts(lines@),
            s@ == joined(all.take(i as int)),
        decreases n - i,
    {
        proof {
            reveal_strlit("\n");
            assert("\n"@ == seq!['\n']);
            assert(all.take(i + 1).drop_last() == all.take(i as int));
            assert(all.take(i + 1).last() == lines@[i as int]@);
        }
        if i > 0 {
            s.append("\n");
        } else {
            assert(s@ + lines@[i as int]@ == lines@[i as int]@);
        }
        s.append(lines[i].as_str());
        i += 1;
    }
    assert(all.take(n as int) == all);
    s
}

/// Filters and normalizes the lines of a feed, sorts the domains they give,
/// removes the repetitions, and writes the configuration lines for `group`.
/// A line that cannot be normalized never stops the run: its reason goes to
/// the errors.
pub fn process(list: &List, feed: &str, group: &str) -> (out: Output)
    ensures
        out.is_output_of(suffix_rules(*list), lines_of(feed@), group@),
{
    let ghost rules = suffix_rules(*list);
    let text = chars_of(feed);
    let all_lines = split_lines(&text);
    let ghost all = views(all_lines@);
    let mut found: Vec<Vec<char>> = Vec::new();
    let mut errors: Vec<String> = Vec::new();
    let n: usize = all_lines.len();
    let mut i: usize = 0;
    assert(all.take(0) == Seq::<Seq<char>>::empty());
    assert(outcomes(rules, all.take(0)) == Seq::<Outcome>::empty()) by {
        reveal(Seq::filter);
    }
    while i < n
        invariant
            i <= n == all_lines.len(),
            all == views(all_lines@),
            rules == suffix_rules(*list),
            views(found@) == successes(outcomes(rules, all.take(i as int))),
            texts(errors@) == failures(outcomes(rules, all.take(i as int))),
        decreases n - i,
    {
        let ghost line = all[i as int];
        let ghost so_far = outcomes(rules, all.take(i as int));
        proof {
            assert(all.take(i + 1) == all.take(i as int).push(line));
            lemma_outcomes_push(rules, all.take(i as int), line);
            lemma_outcome_push(so_far, normalized(rules, line));
            lemma_trimmed_idempotent(line);
        }
        let t = trim(&all_lines[i]);
        if !noise(&t) {
            match normalize_chars(list, &t) {
                Ok(domain) => {
                    let ghost before = views(found@);
                    found.push(chars_of(domain.as_str()));
                    assert(views(found@) == before.push(domain@));
                },
                Err(reason) => {
                    let ghost before = texts(errors@);
                    errors.push(reason);
                    assert(texts(errors@) == before.push(reason@));
                },
            }
        }
        i += 1;
    }
    assert(all.take(n as int) == all);
    let before: usize = found.len();
    let sorted = sorted_distinct(found);
    let duplicates_removed: usize = before - sorted.len();
    let mut domains: Vec<String> = Vec::new();
    let mut lines: Vec<String> = Vec::new();
    let m: usize = sorted.len();
    let mut k: usize = 0;
    while k < m
        invariant
            k <= m == sorted.len(),
            texts(domains@) == views(sorted@).take(k as int),
            texts(lines@) == rendered(views(sorted@).take(k as int), group@),
        decreases m - k,
    {
        let ghost had = texts(domains@);
        let ghost written = texts(lines@);
        let domain = string_of(&sorted[k]);
        let line = render_line(domain.as_str(), group);
        domains.push(domain);
        lines.push(line);
        assert(views(sorted@).take(k + 1) == views(sorted@).take(k as int).push(sorted@[k as int]@));
        assert(texts(domains@) == had.push(domain@));
        assert(texts(lines@) == written.push(line@));
        k += 1;
    }
    assert(views(sorted@).take(m as int) == views(sorted@));
    Output { domains, lines, duplicates_removed, errors }
}

} // verus!
