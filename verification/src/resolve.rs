//! The resolver: out of every installed candidate the host's metadata
//! index reported for a discovery key, pick exactly one according to
//! the version selector.
//!
//! Determinism is the point. The reported candidates arrive in no
//! promised order, so the resolver first keeps only real application
//! bundles, then sorts the survivors by a total lexicographic order on
//! their paths, and only then applies the selector's tie-break rule.

use vstd::prelude::*;
use vstd::multiset::Multiset;
use crate::request::{AppAbbr, TargetVersion};
use crate::text;

verus! {

/// Whether a reported path is an application bundle: its extension is
/// exactly `app`.
pub open spec fn is_app_bundle(p: Seq<char>) -> bool {
    text::extension_of(p) == Some("app"@)
}

/// Whether a candidate is a pre-release build: its file name carries
/// the pre-release marker.
pub open spec fn is_beta_path(p: Seq<char>) -> bool {
    text::contains_seq(text::file_name_of(p), "(Beta)"@)
}

/// Whether a candidate's file name names the year `y`.
pub open spec fn has_year(p: Seq<char>, y: u16) -> bool {
    text::contains_seq(text::file_name_of(p), text::dec_digits(y as nat))
}

/// Decides `is_app_bundle` on a path.
pub fn is_app_bundle_path(p: &str) -> (r: bool)
    ensures
        r == is_app_bundle(p@),
{
    match text::extension_str(p) {
        Some(e) => text::str_eq(e, "app"),
        None => false,
    }
}

/// Decides `is_beta_path` on a path.
pub fn is_beta(p: &str) -> (r: bool)
    ensures
        r == is_beta_path(p@),
{
    text::str_contains(text::file_name_str(p), "(Beta)")
}

/// Decides `has_year` on a path.
pub fn names_year(p: &str, y: u16) -> (r: bool)
    ensures
        r == has_year(p@, y),
{
    let digits = text::u32_to_string(y as u32);
    text::str_contains(text::file_name_str(p), digits.as_str())
}

/// `is_app_bundle` as a first-class predicate.
pub open spec fn bundle_pred() -> spec_fn(Seq<char>) -> bool {
    |p: Seq<char>| is_app_bundle(p)
}

/// Keeps the candidates that are application bundles, in order.
pub fn filter_app_bundles(paths: &Vec<String>) -> (r: Vec<String>)
    ensures
        r.deep_view() == paths.deep_view().filter(bundle_pred()),
{
    let mut out: Vec<String> = Vec::new();
    let mut i: usize = 0;
    proof {
        assert(paths.deep_view().take(0) =~= Seq::<Seq<char>>::empty());
        assert(out.deep_view() =~= Seq::<Seq<char>>::empty());
    }
    while i < paths.len()
        invariant
            i <= paths.len(),
            paths.deep_view().len() == paths.len(),
            out.deep_view() == paths.deep_view().take(i as int).filter(bundle_pred()),
        decreases paths.len() - i,
    {
        let ghost prev = out.deep_view();
        let ghost prefix = paths.deep_view().take(i as int);
        if is_app_bundle_path(&paths[i]) {
            out.push(paths[i].clone());
            proof {
                assert(out.deep_view() =~= prev.push(paths.deep_view()[i as int]));
            }
        }
        proof {
            reveal_with_fuel(Seq::<Seq<char>>::filter, 2);
            let next = paths.deep_view().take(i + 1);
            let elem = paths.deep_view()[i as int];
            assert(next.drop_last() =~= prefix);
            assert(next.last() == elem);
            assert(paths@[i as int]@ == elem);
            assert(bundle_pred()(elem) == is_app_bundle(elem));
            assert(next.drop_last().filter(bundle_pred()) == prefix.filter(bundle_pred()));
            assert(next.filter(bundle_pred()) == if bundle_pred()(elem) {
                prefix.filter(bundle_pred()).push(elem)
            } else {
                prefix.filter(bundle_pred())
            });
            assert(out.deep_view() == next.filter(bundle_pred()));
        }
        i = i + 1;
    }
    proof {
        assert(paths.deep_view().take(paths.len() as int) =~= paths.deep_view());
    }
    out
}

/// The position a sorted insertion of `p` into `out` goes to: the
/// first slot whose element does not come before `p`.
fn insertion_point(out: &Vec<String>, p: &String) -> (j: usize)
    ensures
        j <= out.len(),
        forall|k: int| 0 <= k < j ==> text::lex_le(#[trigger] out.deep_view()[k], p@),
        j < out.len() ==> !text::lex_le(out.deep_view()[j as int], p@),
{
    let mut j: usize = 0;
    loop
        invariant
            j <= out.len(),
            out.deep_view().len() == out.len(),
            forall|k: int| 0 <= k < j ==> text::lex_le(#[trigger] out.deep_view()[k], p@),
        decreases out.len() - j,
    {
        if j == out.len() {
            return j;
        }
        if !text::str_le(&out[j], p) {
            return j;
        }
        j = j + 1;
    }
}

/// Sorts candidates by the lexicographic path order, producing the one
/// canonical arrangement every run agrees on.
pub fn sort_paths(paths: &Vec<String>) -> (r: Vec<String>)
    ensures
        r.deep_view() == paths.deep_view().sort_by(text::path_order()),
{
    let ghost ord = text::path_order();
    let mut out: Vec<String> = Vec::new();
    let mut i: usize = 0;
    proof {
        broadcast use vstd::seq_lib::group_to_multiset_ensures;

        assert(paths.deep_view().take(0) =~= Seq::<Seq<char>>::empty());
        assert(out.deep_view() =~= Seq::<Seq<char>>::empty());
        assert(out.deep_view().to_multiset() =~= paths.deep_view().take(0).to_multiset());
    }
    while i < paths.len()
        invariant
            i <= paths.len(),
            paths.deep_view().len() == paths.len(),
            vstd::relations::sorted_by(out.deep_view(), text::path_order()),
            out.deep_view().to_multiset() == paths.deep_view().take(i as int).to_multiset(),
        decreases paths.len() - i,
    {
        let p = paths[i].clone();
        let ghost prev = out.deep_view();
        let j = insertion_point(&out, &p);
        out.insert(j, p);
        proof {
            broadcast use vstd::seq_lib::group_to_multiset_ensures;

            let cur = out.deep_view();
            assert(cur =~= prev.insert(j as int, paths.deep_view()[i as int]));
            // the new element sits between everything at or left of j
            // and everything right of it
            assert forall|x: int, y: int| 0 <= x < y < cur.len() implies text::path_order()(
                cur[x],
                cur[y],
            ) by {
                let pv = paths.deep_view()[i as int];
                if x == j {
                    // cur[y] is prev[y - 1], to the right of the insertion
                    if j < prev.len() {
                        text::lemma_lex_le_total(prev[j as int], pv);
                        assert(text::lex_le(pv, prev[j as int]));
                        if y - 1 > j {
                            assert(text::path_order()(prev[j as int], prev[y - 1]));
                            text::lemma_lex_le_trans(pv, prev[j as int], prev[y - 1]);
                        }
                    }
                } else if y == j {
                    // cur[x] is prev[x], to the left of the insertion
                    assert(text::lex_le(prev[x], pv));
                } else if x < j && y > j {
                    assert(cur[x] == prev[x] && cur[y] == prev[y - 1]);
                } else if y < j {
                    assert(cur[x] == prev[x] && cur[y] == prev[y]);
                } else {
                    assert(cur[x] == prev[x - 1] && cur[y] == prev[y - 1]);
                }
            }
            assert(vstd::relations::sorted_by(cur, text::path_order()));
            let next = paths.deep_view().take(i + 1);
            assert(next.drop_last() =~= paths.deep_view().take(i as int));
            assert(next =~= paths.deep_view().take(i as int).push(paths.deep_view()[i as int]));
            assert(cur.to_multiset() =~= next.to_multiset());
        }
        i = i + 1;
    }
    proof {
        broadcast use vstd::seq_lib::group_to_multiset_ensures;

        assert(paths.deep_view().take(paths.len() as int) =~= paths.deep_view());
        text::lemma_path_order_total_ordering();
        paths.deep_view().lemma_sort_by_ensures(text::path_order());
        vstd::seq_lib::lemma_sorted_unique(
            out.deep_view(),
            paths.deep_view().sort_by(text::path_order()),
            text::path_order(),
        );
        assert(out.deep_view() =~= paths.deep_view().sort_by(text::path_order()));
    }
    out
}

/// The candidates that are not pre-release builds, as a predicate.
pub open spec fn non_beta_pred() -> spec_fn(Seq<char>) -> bool {
    |p: Seq<char>| !is_beta_path(p)
}

/// The pre-release candidates, as a predicate.
pub open spec fn beta_pred() -> spec_fn(Seq<char>) -> bool {
    |p: Seq<char>| is_beta_path(p)
}

/// The candidates naming the year `y`, as a predicate.
pub open spec fn year_pred(y: u16) -> spec_fn(Seq<char>) -> bool {
    |p: Seq<char>| has_year(p, y)
}

/// The last element of `s` satisfying `pred`, scanning from the end.
pub open spec fn last_matching(
    s: Seq<Seq<char>>,
    pred: spec_fn(Seq<char>) -> bool,
) -> Option<Seq<char>>
    decreases s.len(),
{
    if s.len() == 0 {
        None
    } else if pred(s.last()) {
        Some(s.last())
    } else {
        last_matching(s.drop_last(), pred)
    }
}

/// `last_matching` finds an element exactly when one satisfies the
/// predicate, and what it finds satisfies it and came from the list.
pub proof fn lemma_last_matching(s: Seq<Seq<char>>, pred: spec_fn(Seq<char>) -> bool)
    ensures
        (last_matching(s, pred) is Some) <==> exists|i: int|
            0 <= i < s.len() && #[trigger] pred(s[i]),
        match last_matching(s, pred) {
            Some(p) => pred(p) && s.contains(p),
            None => true,
        },
    decreases s.len(),
{
    if s.len() == 0 {
    } else if pred(s.last()) {
        assert(pred(s[s.len() - 1]));
    } else {
        lemma_last_matching(s.drop_last(), pred);
        assert(forall|k: int| 0 <= k < s.len() - 1 ==> #[trigger] s[k] == s.drop_last()[k]);
        if exists|i: int| 0 <= i < s.len() && #[trigger] pred(s[i]) {
            let i = choose|i: int| 0 <= i < s.len() && #[trigger] pred(s[i]);
            assert(i < s.len() - 1);
            assert(pred(s.drop_last()[i]));
        }
        match last_matching(s.drop_last(), pred) {
            Some(p) => {
                let i = choose|i: int| 0 <= i < s.len() - 1 && s.drop_last()[i] == p;
                assert(s[i] == p);
            },
            None => {},
        }
    }
}

/// The predicate a selector matches candidates against first.
pub open spec fn target_pred(target: TargetVersion) -> spec_fn(Seq<char>) -> bool {
    match target {
        TargetVersion::Latest => non_beta_pred(),
        TargetVersion::Beta => beta_pred(),
        TargetVersion::Year(y) => year_pred(y),
    }
}

/// The selector's tie-break rule over an already-sorted candidate list:
/// `latest` takes the last non-pre-release candidate and falls back to
/// the overall last one; `beta` takes the last pre-release candidate;
/// a year takes the last candidate naming it.
pub open spec fn choose_from_sorted(sorted: Seq<Seq<char>>, target: TargetVersion) -> Option<
    Seq<char>,
> {
    match last_matching(sorted, target_pred(target)) {
        Some(p) => Some(p),
        None => match target {
            TargetVersion::Latest => if sorted.len() > 0 {
                Some(sorted.last())
            } else {
                None
            },
            _ => None,
        },
    }
}

/// What resolution picks out of an unordered candidate list: the
/// tie-break rule applied to its one sorted arrangement.
pub open spec fn choose_spec(cands: Seq<Seq<char>>, target: TargetVersion) -> Option<Seq<char>> {
    choose_from_sorted(cands.sort_by(text::path_order()), target)
}

/// Scans a sorted candidate list from the end for the selector's
/// first-choice predicate.
fn find_last_matching(sorted: &Vec<String>, target: &TargetVersion) -> (r: Option<String>)
    ensures
        match r {
            Some(p) => last_matching(sorted.deep_view(), target_pred(*target)) == Some(p@),
            None => last_matching(sorted.deep_view(), target_pred(*target)) is None,
        },
{
    let ghost pred = target_pred(*target);
    let ghost full = sorted.deep_view();
    let mut j: usize = sorted.len();
    proof {
        assert(full.take(sorted.len() as int) =~= full);
    }
    while j > 0
        invariant
            j <= sorted.len(),
            full == sorted.deep_view(),
            full.len() == sorted.len(),
            pred == target_pred(*target),
            last_matching(full, pred) == last_matching(full.take(j as int), pred),
        decreases j,
    {
        let hit = match target {
            TargetVersion::Latest => !is_beta(&sorted[j - 1]),
            TargetVersion::Beta => is_beta(&sorted[j - 1]),
            TargetVersion::Year(y) => names_year(&sorted[j - 1], *y),
        };
        proof {
            assert(full.take(j as int).last() == full[j - 1]);
            assert(full[j - 1] == sorted@[j - 1]@);
            assert(pred(full[j - 1]) == hit);
        }
        if hit {
            return Some(sorted[j - 1].clone());
        }
        proof {
            assert(full.take(j as int).drop_last() =~= full.take(j - 1));
        }
        j = j - 1;
    }
    proof {
        assert(full.take(0) =~= Seq::<Seq<char>>::empty());
    }
    None
}

/// Picks one candidate out of an unordered list according to the
/// selector: the resolver's heart, and deterministic by construction.
pub fn choose_app_path(paths: &Vec<String>, target: &TargetVersion) -> (r: Option<String>)
    ensures
        match r {
            Some(p) => choose_spec(paths.deep_view(), *target) == Some(p@),
            None => choose_spec(paths.deep_view(), *target) is None,
        },
{
    let sorted = sort_paths(paths);
    match find_last_matching(&sorted, target) {
        Some(p) => Some(p),
        None => match target {
            TargetVersion::Latest => {
                if sorted.len() > 0 {
                    let p = sorted[sorted.len() - 1].clone();
                    proof {
                        assert(sorted.deep_view().last() == sorted@[sorted.len() - 1]@);
                    }
                    Some(p)
                } else {
                    None
                }
            },
            _ => None,
        },
    }
}

/// Why resolution failed.
#[derive(Clone, Copy, Debug, PartialEq, Eq, Structural)]
pub enum ResolveError {
    /// The metadata index reported no application bundle at all for
    /// the identifier's discovery key.
    NotFound { abbr: AppAbbr },
    /// Bundles were installed, but none matched the selector.
    VersionNotFound { target: TargetVersion },
}

impl ResolveError {
    /// The message each failure carries.
    pub open spec fn spec_message(self) -> Seq<char> {
        match self {
            ResolveError::NotFound { abbr } => crate::request::spec_display_name(abbr)
                + " not found (bundle id: "@ + crate::request::spec_bundle_id(abbr) + ")"@,
            ResolveError::VersionNotFound { target } => match target {
                TargetVersion::Beta => "beta not found"@,
                TargetVersion::Year(y) => "no release found for year "@ + text::dec_digits(
                    y as nat,
                ),
                TargetVersion::Latest => "Requested target version not found"@,
            },
        }
    }

    /// Writes the failure out for the diagnostic stream.
    pub fn message(&self) -> (m: String)
        ensures
            m@ == self.spec_message(),
    {
        match self {
            ResolveError::NotFound { abbr } => {
                let mut m = String::from_str(abbr.base_display_name());
                m.append(" not found (bundle id: ");
                m.append(abbr.bundle_id());
                m.append(")");
                m
            },
            ResolveError::VersionNotFound { target } => match target {
                TargetVersion::Beta => String::from_str("beta not found"),
                TargetVersion::Year(y) => {
                    let mut m = String::from_str("no release found for year ");
                    m.append(text::u32_to_string(*y as u32).as_str());
                    m
                },
                TargetVersion::Latest => String::from_str("Requested target version not found"),
            },
        }
    }
}

/// One resolved installation: what the dispatcher consumes.
#[derive(Clone, Debug, PartialEq, Eq)]
pub struct App {
    /// The application asked for.
    pub abbr: AppAbbr,
    /// The discovery key the candidates were found under.
    pub bundle_id: String,
    /// The winning installation's display name: its file stem.
    pub name: String,
    /// The winning installation's full bundle path.
    pub path: String,
    /// The selector that picked it.
    pub target: TargetVersion,
}

impl App {
    /// A well-formed resolution result: the derived fields agree with
    /// the identifier and the winning path.
    pub open spec fn wf(self) -> bool {
        &&& self.bundle_id@ == crate::request::spec_bundle_id(self.abbr)
        &&& self.name@ == text::file_stem_of(self.path@)
    }

    /// Resolves one installation out of the paths the metadata index
    /// reported for the identifier's discovery key. Keeps only real
    /// application bundles, then applies the selector over their sorted
    /// order. With no bundles at all this is the not-found error; with
    /// bundles but no selector match, the selector's own error — which
    /// the `latest` selector, by its fallback, never produces.
    pub fn new(abbr: AppAbbr, target: TargetVersion, discovered: &Vec<String>) -> (r: Result<
        App,
        ResolveError,
    >)
        ensures
            ({
                let bundles = discovered.deep_view().filter(bundle_pred());
                match r {
                    Ok(app) => {
                        &&& choose_spec(bundles, target) == Some(app.path@)
                        &&& app.abbr == abbr
                        &&& app.target == target
                        &&& app.wf()
                    },
                    Err(ResolveError::NotFound { abbr: a }) => a == abbr && bundles.len() == 0,
                    Err(ResolveError::VersionNotFound { target: t }) => {
                        &&& t == target
                        &&& bundles.len() > 0
                        &&& choose_spec(bundles, target) is None
                        &&& !(target is Latest)
                    },
                }
            }),
    {
        let candidates = filter_app_bundles(discovered);
        if candidates.len() == 0 {
            return Err(ResolveError::NotFound { abbr });
        }
        match choose_app_path(&candidates, &target) {
            None => {
                proof {
                    if target is Latest {
                        lemma_latest_always_resolves(candidates.deep_view());
                    }
                }
                Err(ResolveError::VersionNotFound { target })
            },
            Some(chosen) => {
                let name = String::from_str(text::file_stem_str(chosen.as_str()));
                Ok(App { abbr, bundle_id: String::from_str(abbr.bundle_id()), name, path: chosen, target })
            },
        }
    }
}

/// How this resolution is written for the diagnostic stream: the
/// winning name tagged with the selector that picked it.
impl App {
    /// The resolution, written out: `name [latest]`, `name [beta]`,
    /// or `name [year]`.
    pub open spec fn spec_describe(self) -> Seq<char> {
        match self.target {
            TargetVersion::Latest => self.name@ + " [latest]"@,
            TargetVersion::Beta => self.name@ + " [beta]"@,
            TargetVersion::Year(y) => self.name@ + " ["@ + text::dec_digits(y as nat) + "]"@,
        }
    }

    /// Writes the resolution out for the diagnostic stream.
    pub fn describe(&self) -> (m: String)
        ensures
            m@ == self.spec_describe(),
    {
        let mut m = self.name.clone();
        match &self.target {
            TargetVersion::Latest => {
                m.append(" [latest]");
            },
            TargetVersion::Beta => {
                m.append(" [beta]");
            },
            TargetVersion::Year(y) => {
                m.append(" [");
                m.append(text::u32_to_string(*y as u32).as_str());
                m.append("]");
            },
        }
        m
    }
}

/// Reads the metadata-index query's exit back into candidates: on a
/// successful exit, the reported paths, one per line of its output;
/// on any other exit, the discovery error carrying the captured text.
pub fn discovery_outcome(success: bool, stdout: &str, stderr: &str) -> (r: Result<
    Vec<String>,
    String,
>)
    ensures
        match r {
            Ok(v) => success && v.deep_view() == text::lines_of(stdout@),
            Err(e) => !success && e@ == "mdfind failed: "@ + stderr@,
        },
{
    if success {
        Ok(text::split_lines(stdout))
    } else {
        let mut e = String::from_str("mdfind failed: ");
        e.append(stderr);
        Err(e)
    }
}

/// The query string handed to the metadata index: an exact match on
/// the bundle-identifier field.
pub fn mdfind_query(bundle_id: &str) -> (q: String)
    ensures
        q@ == "kMDItemCFBundleIdentifier == \""@ + bundle_id@ + "\""@,
{
    let mut q = String::from_str("kMDItemCFBundleIdentifier == \"");
    q.append(bundle_id);
    q.append("\"");
    q
}

/// Anything installed at all lets `latest` resolve: its fallback takes
/// the last sorted candidate when no non-pre-release one exists.
pub proof fn lemma_latest_always_resolves(cands: Seq<Seq<char>>)
    requires
        cands.len() > 0,
    ensures
        choose_spec(cands, TargetVersion::Latest) is Some,
{
    broadcast use vstd::seq_lib::group_to_multiset_ensures;

    text::lemma_path_order_total_ordering();
    cands.lemma_sort_by_ensures(text::path_order());
    let sorted = cands.sort_by(text::path_order());
    assert(sorted.to_multiset().len() == cands.to_multiset().len());
    assert(sorted.len() > 0);
}

/// As long as some non-pre-release bundle is among the candidates,
/// `latest` never answers with a pre-release build; the fallback to one
/// happens only when nothing else is installed.
pub proof fn lemma_latest_prefers_non_beta(cands: Seq<Seq<char>>)
    requires
        exists|i: int| 0 <= i < cands.len() && !is_beta_path(#[trigger] cands[i]),
    ensures
        match choose_spec(cands, TargetVersion::Latest) {
            Some(p) => !is_beta_path(p),
            None => false,
        },
{
    broadcast use vstd::seq_lib::group_to_multiset_ensures;

    text::lemma_path_order_total_ordering();
    cands.lemma_sort_by_ensures(text::path_order());
    let sorted = cands.sort_by(text::path_order());
    let pred = non_beta_pred();
    let i = choose|i: int| 0 <= i < cands.len() && !is_beta_path(#[trigger] cands[i]);
    let x = cands[i];
    assert(cands.contains(x));
    assert(cands.to_multiset().count(x) > 0);
    assert(sorted.to_multiset().count(x) > 0);
    assert(sorted.contains(x));
    let j = choose|j: int| 0 <= j < sorted.len() && sorted[j] == x;
    assert(pred(sorted[j]));
    lemma_last_matching(sorted, pred);
    assert(last_matching(sorted, pred) is Some);
    match last_matching(sorted, pred) {
        Some(p) => {
            assert(pred(p));
        },
        None => {},
    }
}

/// The winner does not depend on the order the metadata index returned
/// the candidates in: any two arrangements of one candidate set choose
/// the same path. Sorting first is what makes this hold.
pub proof fn lemma_choice_order_independent(
    a: Seq<Seq<char>>,
    b: Seq<Seq<char>>,
    target: TargetVersion,
)
    requires
        a.to_multiset() == b.to_multiset(),
    ensures
        choose_spec(a, target) == choose_spec(b, target),
{
    text::lemma_path_order_total_ordering();
    a.lemma_sort_by_ensures(text::path_order());
    b.lemma_sort_by_ensures(text::path_order());
    vstd::seq_lib::lemma_sorted_unique(
        a.sort_by(text::path_order()),
        b.sort_by(text::path_order()),
        text::path_order(),
    );
    assert(a.sort_by(text::path_order()) == b.sort_by(text::path_order()));
}

/// How often `x` survives filtering: as often as it occurred, when it
/// satisfies the predicate, and never otherwise.
proof fn lemma_filter_to_multiset_count(
    s: Seq<Seq<char>>,
    pred: spec_fn(Seq<char>) -> bool,
    x: Seq<char>,
)
    ensures
        s.filter(pred).to_multiset().count(x) == if pred(x) {
            s.to_multiset().count(x)
        } else {
            0
        },
    decreases s.len(),
{
    broadcast use vstd::seq_lib::group_to_multiset_ensures;
    broadcast use vstd::multiset::group_multiset_axioms;

    reveal_with_fuel(Seq::<Seq<char>>::filter, 2);
    if s.len() == 0 {
        assert(s.to_multiset() =~= Multiset::<Seq<char>>::empty());
    } else {
        let rest = s.drop_last();
        lemma_filter_to_multiset_count(rest, pred, x);
        assert(s =~= rest.push(s.last()));
        assert(s.to_multiset() =~= rest.to_multiset().insert(s.last()));
        if pred(s.last()) {
            assert(s.filter(pred) == rest.filter(pred).push(s.last()));
            assert(s.filter(pred).to_multiset() =~= rest.filter(pred).to_multiset().insert(
                s.last(),
            ));
        } else {
            assert(s.filter(pred) == rest.filter(pred));
        }
    }
}

/// Full resolution is order-independent too: any two arrangements of
/// one discovered set keep the same bundles (as a multiset) and choose
/// the same winner.
pub proof fn lemma_resolution_order_independent(
    a: Seq<Seq<char>>,
    b: Seq<Seq<char>>,
    target: TargetVersion,
)
    requires
        a.to_multiset() == b.to_multiset(),
    ensures
        a.filter(bundle_pred()).to_multiset() == b.filter(bundle_pred()).to_multiset(),
        a.filter(bundle_pred()).len() == b.filter(bundle_pred()).len(),
        choose_spec(a.filter(bundle_pred()), target) == choose_spec(b.filter(bundle_pred()), target),
{
    broadcast use vstd::seq_lib::group_to_multiset_ensures;
    broadcast use vstd::multiset::group_multiset_axioms;

    let fa = a.filter(bundle_pred());
    let fb = b.filter(bundle_pred());
    assert forall|x: Seq<char>| #[trigger] fa.to_multiset().count(x) == fb.to_multiset().count(x) by {
        lemma_filter_to_multiset_count(a, bundle_pred(), x);
        lemma_filter_to_multiset_count(b, bundle_pred(), x);
    }
    assert(fa.to_multiset() =~= fb.to_multiset());
    assert(fa.to_multiset().len() == fb.to_multiset().len());
    lemma_choice_order_independent(fa, fb, target);
}

} // verus!
