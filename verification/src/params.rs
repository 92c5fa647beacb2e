//! The free-form parameters of an account, and the typed records that each
//! provider reads out of them.

use vstd::prelude::*;
use vstd::std_specs::convert::TryFromSpecImpl;
use crate::error::{result_view, Error, ErrorView};
use crate::text::{
    lemma_lex_le_total, lemma_lex_lt_asymmetric, lemma_lex_lt_irreflexive,
    lemma_lex_lt_transitive, lex_lt, rank, Rank,
};

verus! {

/// The map that a list of name and value pairs stands for: each pair binds
/// its name, and a later pair replaces an earlier one of the same name.
pub open spec fn pairs_map(pairs: Seq<(String, String)>) -> Map<Seq<char>, Seq<char>>
    decreases pairs.len(),
{
    if pairs.len() == 0 {
        Map::empty()
    } else {
        pairs_map(pairs.drop_last()).insert(pairs.last().0@, pairs.last().1@)
    }
}

/// The names of the pairs rise strictly from each pair to the next, so that
/// no name occurs twice.
pub open spec fn strictly_ascending(pairs: Seq<(String, String)>) -> bool {
    forall|i: int, j: int|
        0 <= i < j < pairs.len() ==> lex_lt(#[trigger] pairs[i].0@, #[trigger] pairs[j].0@)
}

/// `at` is the place of the last pair that carries `name`.
pub open spec fn is_last_with_name(pairs: Seq<(String, String)>, name: Seq<char>, at: int) -> bool {
    &&& 0 <= at < pairs.len()
    &&& pairs[at].0@ == name
    &&& forall|k: int| at < k < pairs.len() ==> (#[trigger] pairs[k]).0@ != name
}

/// A string-keyed, string-valued dictionary with exact-match lookup.
///
/// The pairs are kept in ascending order of their names, so that two maps
/// with the same bindings are equal whatever the order they were filled in.
#[derive(Debug, PartialEq, Eq)]
pub struct Parameters {
    entries: Vec<(String, String)>,
}

impl View for Parameters {
    type V = Map<Seq<char>, Seq<char>>;

    closed spec fn view(&self) -> Map<Seq<char>, Seq<char>> {
        pairs_map(self.entries@)
    }
}

impl Parameters {
    #[verifier::type_invariant]
    spec fn ordered(&self) -> bool {
        strictly_ascending(self.entries@)
    }

    /// Get the value for a given parameter.
    pub fn get(&self, param: &str) -> (r: Result<&String, Error>)
        ensures
            match r {
                Ok(value) => self@.contains_key(param@) && value@ == self@[param@],
                Err(e) => !self@.contains_key(param@) && e@ == ErrorView::MissingParameter(
                    param@,
                ),
            },
    {
        proof {
            use_type_invariant(self);
        }
        let mut i: usize = 0;
        while i < self.entries.len()
            invariant
                i <= self.entries.len(),
                strictly_ascending(self.entries@),
                forall|k: int| 0 <= k < i ==> (#[trigger] self.entries@[k]).0@ != param@,
            decreases self.entries.len() - i,
        {
            if rank(self.entries[i].0.as_str(), param) == Rank::Same {
                proof {
                    lemma_pairs_map_present(self.entries@, i as int);
                }
                return Ok(&self.entries[i].1);
            }
            i += 1;
        }
        proof {
            lemma_pairs_map_binds(self.entries@, param@);
        }
        Err(Error::MissingParameter(param.to_owned()))
    }

    /// Builds the map that the given pairs stand for. Where a name occurs
    /// more than once, the last of its pairs counts.
    pub fn from_iter(pairs: Vec<(String, String)>) -> (r: Self)
        ensures
            r@ == pairs_map(pairs@),
    {
        let mut params = Parameters { entries: Vec::new() };
        let ghost all = pairs@;
        for pair in it: pairs
            invariant
                it.seq() == all,
                params@ == pairs_map(all.take(it.index())),
        {
            proof {
                assert(all.take(it.index() + 1).drop_last() =~= all.take(it.index()));
            }
            params = params.with(pair.0, pair.1);
        }
        proof {
            assert(all.take(all.len() as int) =~= all);
        }
        params
    }

    /// The bindings as pairs, in ascending order of their names.
    pub fn pairs(&self) -> (r: Vec<(String, String)>)
        ensures
            strictly_ascending(r@),
            pairs_map(r@) == self@,
    {
        proof {
            use_type_invariant(self);
        }
        let mut out: Vec<(String, String)> = Vec::new();
        let mut i: usize = 0;
        while i < self.entries.len()
            invariant
                i <= self.entries.len(),
                out@ == self.entries@.take(i as int),
            decreases self.entries.len() - i,
        {
            let name = self.entries[i].0.clone();
            let value = self.entries[i].1.clone();
            out.push((name, value));
            proof {
                assert(out@ =~= self.entries@.take(i + 1));
            }
            i += 1;
        }
        proof {
            assert(out@ =~= self.entries@);
        }
        out
    }

    /// The map with `name` bound to `value`, in place of what it was bound
    /// to before.
    fn with(self, name: String, value: String) -> (r: Self)
        ensures
            r@ == self@.insert(name@, value@),
    {
        proof {
            use_type_invariant(&self);
        }
        let mut entries = self.entries;
        let ghost before = entries@;
        let mut at: usize = 0;
        while at < entries.len() && rank(entries[at].0.as_str(), name.as_str()) == Rank::Before
            invariant
                at <= entries.len(),
                entries@ == before,
                forall|k: int| 0 <= k < at ==> lex_lt((#[trigger] before[k]).0@, name@),
            decreases entries.len() - at,
        {
            at += 1;
        }
        let ghost pair = (name, value);
        if at < entries.len() && rank(entries[at].0.as_str(), name.as_str()) == Rank::Same {
            entries.set(at, (name, value));
            proof {
                lemma_replaced(before, at as int, pair);
            }
        } else {
            proof {
                if at < before.len() {
                    lemma_lex_le_total(before[at as int].0@, name@);
                }
            }
            entries.insert(at, (name, value));
            proof {
                lemma_inserted(before, at as int, pair);
            }
        }
        Parameters { entries }
    }
}

impl Default for Parameters {
    /// The map that binds nothing.
    fn default() -> (r: Self)
        ensures
            r@ == Map::<Seq<char>, Seq<char>>::empty(),
    {
        Parameters { entries: Vec::new() }
    }
}

impl Clone for Parameters {
    fn clone(&self) -> (r: Self)
        ensures
            r@ == self@,
    {
        let entries = self.pairs();
        Parameters { entries }
    }
}

/// The text of a string that may be absent.
pub open spec fn option_text(value: Option<String>) -> Option<Seq<char>> {
    match value {
        Some(value) => Some(value@),
        None => None,
    }
}

/// What `name` is bound to in `map`, if it is bound.
pub open spec fn lookup(map: Map<Seq<char>, Seq<char>>, name: Seq<char>) -> Option<Seq<char>> {
    if map.contains_key(name) {
        Some(map[name])
    } else {
        None
    }
}

/// What a DigitalOcean account needs to fetch its cluster configuration.
#[derive(Debug, PartialEq, Eq)]
pub struct DigitalOceanParameters {
    pub cluster: String,
    pub context: Option<String>,
}

/// A [`DigitalOceanParameters`] with its texts as sequences of characters.
pub struct DigitalOceanParametersView {
    pub cluster: Seq<char>,
    pub context: Option<Seq<char>>,
}

impl View for DigitalOceanParameters {
    type V = DigitalOceanParametersView;

    open spec fn view(&self) -> DigitalOceanParametersView {
        DigitalOceanParametersView { cluster: self.cluster@, context: option_text(self.context) }
    }
}

/// The DigitalOcean record that `map` yields: `cluster` is required,
/// `context` is taken where it is bound.
pub open spec fn digital_ocean_of(map: Map<Seq<char>, Seq<char>>) -> Result<
    DigitalOceanParametersView,
    ErrorView,
> {
    if !map.contains_key("cluster"@) {
        Err(ErrorView::MissingParameter("cluster"@))
    } else {
        Ok(DigitalOceanParametersView { cluster: map["cluster"@], context: lookup(map, "context"@) })
    }
}

/// What an EKS account needs to fetch its cluster configuration.
#[derive(Debug, PartialEq, Eq)]
pub struct EksParameters {
    pub name: String,
    pub region: Option<String>,
    pub profile: Option<String>,
}

/// An [`EksParameters`] with its texts as sequences of characters.
pub struct EksParametersView {
    pub name: Seq<char>,
    pub region: Option<Seq<char>>,
    pub profile: Option<Seq<char>>,
}

impl View for EksParameters {
    type V = EksParametersView;

    open spec fn view(&self) -> EksParametersView {
        EksParametersView {
            name: self.name@,
            region: option_text(self.region),
            profile: option_text(self.profile),
        }
    }
}

/// The EKS record that `map` yields: `name` is required, `region` and
/// `profile` are taken where they are bound.
pub open spec fn eks_of(map: Map<Seq<char>, Seq<char>>) -> Result<EksParametersView, ErrorView> {
    if !map.contains_key("name"@) {
        Err(ErrorView::MissingParameter("name"@))
    } else {
        Ok(
            EksParametersView {
                name: map["name"@],
                region: lookup(map, "region"@),
                profile: lookup(map, "profile"@),
            },
        )
    }
}

impl Parameters {
    /// The value of a parameter that may be absent.
    fn optional(&self, param: &str) -> (r: Option<String>)
        ensures
            option_text(r) == lookup(self@, param@),
    {
        match self.get(param) {
            Ok(value) => Some(value.clone()),
            Err(_) => None,
        }
    }
}

/// The conversion is specified over views, by the `ensures` of `try_from`.
impl TryFromSpecImpl<Parameters> for DigitalOceanParameters {
    open spec fn obeys_try_from_spec() -> bool {
        false
    }

    open spec fn try_from_spec(v: Parameters) -> Result<Self, Error> {
        arbitrary()
    }
}

impl TryFrom<Parameters> for DigitalOceanParameters {
    type Error = Error;

    /// Reads the record out of the parameters, or names the first required
    /// parameter that is missing.
    fn try_from(params: Parameters) -> (r: Result<Self, Error>)
        ensures
            result_view(r) == digital_ocean_of(params@),
    {
        let cluster = match params.get("cluster") {
            Ok(value) => value.clone(),
            Err(e) => {
                return Err(e);
            },
        };
        let context = params.optional("context");
        Ok(DigitalOceanParameters { cluster, context })
    }
}

/// The conversion is specified over views, by the `ensures` of `try_from`.
impl TryFromSpecImpl<Parameters> for EksParameters {
    open spec fn obeys_try_from_spec() -> bool {
        false
    }

    open spec fn try_from_spec(v: Parameters) -> Result<Self, Error> {
        arbitrary()
    }
}

impl TryFrom<Parameters> for EksParameters {
    type Error = Error;

    /// Reads the record out of the parameters, or names the first required
    /// parameter that is missing.
    fn try_from(params: Parameters) -> (r: Result<Self, Error>)
        ensures
            result_view(r) == eks_of(params@),
    {
        let name = match params.get("name") {
            Ok(value) => value.clone(),
            Err(e) => {
                return Err(e);
            },
        };
        let region = params.optional("region");
        let profile = params.optional("profile");
        Ok(EksParameters { name, region, profile })
    }
}

/// A list of pairs binds the names that its pairs carry, each to the value
/// of the last pair that carries it.
pub proof fn lemma_pairs_map_binds(pairs: Seq<(String, String)>, name: Seq<char>)
    ensures
        pairs_map(pairs).contains_key(name) <==> exists|at: int|
            0 <= at < pairs.len() && (#[trigger] pairs[at]).0@ == name,
        forall|at: int|
            is_last_with_name(pairs, name, at) ==> pairs_map(pairs)[name] == pairs[at].1@,
    decreases pairs.len(),
{
    if pairs.len() > 0 {
        let front = pairs.drop_last();
        let end = pairs.len() - 1;
        lemma_pairs_map_binds(front, name);
        assert(pairs.last() == pairs[end]);
        if pairs[end].0@ != name {
            if pairs_map(pairs).contains_key(name) {
                let at = choose|at: int| 0 <= at < front.len() && (#[trigger] front[at]).0@ == name;
                assert(pairs[at] == front[at]);
            }
            if exists|at: int| 0 <= at < pairs.len() && (#[trigger] pairs[at]).0@ == name {
                let at = choose|at: int| 0 <= at < pairs.len() && (#[trigger] pairs[at]).0@ == name;
                assert(front[at] == pairs[at]);
            }
            assert forall|at: int| is_last_with_name(pairs, name, at) implies pairs_map(
                pairs,
            )[name] == pairs[at].1@ by {
                assert(front[at] == pairs[at]);
                assert forall|k: int| at < k < front.len() implies (#[trigger] front[k]).0@
                    != name by {
                    assert(front[k] == pairs[k]);
                }
                assert(is_last_with_name(front, name, at));
            }
        }
    }
}

/// Where no name occurs twice, each pair's name is bound to that pair's value.
proof fn lemma_pairs_map_present(pairs: Seq<(String, String)>, at: int)
    requires
        strictly_ascending(pairs),
        0 <= at < pairs.len(),
    ensures
        pairs_map(pairs).contains_key(pairs[at].0@),
        pairs_map(pairs)[pairs[at].0@] == pairs[at].1@,
{
    let name = pairs[at].0@;
    lemma_lex_lt_irreflexive(name);
    assert forall|k: int| at < k < pairs.len() implies (#[trigger] pairs[k]).0@ != name by {
        assert(lex_lt(pairs[at].0@, pairs[k].0@));
    }
    assert(is_last_with_name(pairs, name, at));
    lemma_pairs_map_binds(pairs, name);
}

/// A name that is bound is carried by some pair; the result is such a
/// pair's place.
proof fn lemma_pairs_map_source(pairs: Seq<(String, String)>, name: Seq<char>) -> (at: int)
    requires
        pairs_map(pairs).contains_key(name),
    ensures
        0 <= at < pairs.len(),
        pairs[at].0@ == name,
{
    lemma_pairs_map_binds(pairs, name);
    choose|i: int| 0 <= i < pairs.len() && (#[trigger] pairs[i]).0@ == name
}

/// Putting a new value in the place of a pair of the same name rebinds
/// that name and keeps the order.
proof fn lemma_replaced(pairs: Seq<(String, String)>, at: int, pair: (String, String))
    requires
        strictly_ascending(pairs),
        0 <= at < pairs.len(),
        pairs[at].0@ == pair.0@,
    ensures
        strictly_ascending(pairs.update(at, pair)),
        pairs_map(pairs.update(at, pair)) == pairs_map(pairs).insert(pair.0@, pair.1@),
{
    let after = pairs.update(at, pair);
    assert forall|i: int, j: int| 0 <= i < j < after.len() implies lex_lt(
        #[trigger] after[i].0@,
        #[trigger] after[j].0@,
    ) by {
        assert(after[i].0@ == pairs[i].0@ && after[j].0@ == pairs[j].0@);
    }
    let want = pairs_map(pairs).insert(pair.0@, pair.1@);
    let got = pairs_map(after);
    assert forall|name: Seq<char>| #[trigger]
        got.dom().contains(name) == want.dom().contains(name) && (got.dom().contains(name)
            ==> got[name] == want[name]) by {
        if got.contains_key(name) {
            let i = lemma_pairs_map_source(after, name);
            lemma_pairs_map_present(after, i);
            if i != at {
                assert(after[i] == pairs[i]);
                lemma_pairs_map_present(pairs, i);
                lemma_lex_lt_irreflexive(name);
                assert(lex_lt(pairs[i].0@, pairs[at].0@) || lex_lt(pairs[at].0@, pairs[i].0@));
            }
        } else if name == pair.0@ {
            lemma_pairs_map_present(after, at);
        } else if pairs_map(pairs).contains_key(name) {
            let i = lemma_pairs_map_source(pairs, name);
            assert(after[i] == pairs[i]);
            lemma_pairs_map_present(after, i);
        }
    }
    assert(got =~= want);
}

/// Putting a pair between the names below its own and the names above it
/// binds its name and keeps the order.
proof fn lemma_inserted(pairs: Seq<(String, String)>, at: int, pair: (String, String))
    requires
        strictly_ascending(pairs),
        0 <= at <= pairs.len(),
        forall|k: int| 0 <= k < at ==> lex_lt((#[trigger] pairs[k]).0@, pair.0@),
        at < pairs.len() ==> lex_lt(pair.0@, pairs[at].0@),
    ensures
        strictly_ascending(pairs.insert(at, pair)),
        pairs_map(pairs.insert(at, pair)) == pairs_map(pairs).insert(pair.0@, pair.1@),
{
    let after = pairs.insert(at, pair);
    assert forall|i: int, j: int| 0 <= i < j < after.len() implies lex_lt(
        #[trigger] after[i].0@,
        #[trigger] after[j].0@,
    ) by {
        if j == at {
            assert(after[i] == pairs[i]);
        } else if i == at {
            assert(after[j] == pairs[j - 1]);
            if j - 1 > at {
                lemma_lex_lt_transitive(pair.0@, pairs[at].0@, pairs[j - 1].0@);
            }
        } else {
            let a = if i < at { i } else { i - 1 };
            let b = if j < at { j } else { j - 1 };
            assert(after[i] == pairs[a] && after[j] == pairs[b]);
        }
    }
    let want = pairs_map(pairs).insert(pair.0@, pair.1@);
    let got = pairs_map(after);
    assert forall|name: Seq<char>| #[trigger]
        got.dom().contains(name) == want.dom().contains(name) && (got.dom().contains(name)
            ==> got[name] == want[name]) by {
        if got.contains_key(name) {
            let i = lemma_pairs_map_source(after, name);
            lemma_pairs_map_present(after, i);
            if i != at {
                let a = if i < at { i } else { i - 1 };
                assert(after[i] == pairs[a]);
                lemma_pairs_map_present(pairs, a);
                lemma_lex_lt_irreflexive(name);
                assert(lex_lt(after[i].0@, after[at].0@) || lex_lt(after[at].0@, after[i].0@));
            }
        } else if name == pair.0@ {
            lemma_pairs_map_present(after, at);
        } else if pairs_map(pairs).contains_key(name) {
            let a = lemma_pairs_map_source(pairs, name);
            let i = if a < at { a } else { a + 1 };
            assert(after[i] == pairs[a]);
            lemma_pairs_map_present(after, i);
        }
    }
    assert(got =~= want);
}

/// Two ascending lists of pairs that stand for the same map hold the same
/// names and values in the same places: a map has one such list only.
pub proof fn lemma_ascending_pairs_are_determined(
    first: Seq<(String, String)>,
    second: Seq<(String, String)>,
)
    requires
        strictly_ascending(first),
        strictly_ascending(second),
        pairs_map(first) == pairs_map(second),
    ensures
        first.len() == second.len(),
        forall|i: int|
            0 <= i < first.len() ==> (#[trigger] first[i]).0@ == second[i].0@ && first[i].1@
                == second[i].1@,
    decreases first.len(),
{
    if first.len() == 0 {
        if second.len() > 0 {
            lemma_pairs_map_present(second, 0);
        }
    } else if second.len() == 0 {
        lemma_pairs_map_present(first, 0);
    } else {
        let m = first.len() - 1;
        let n = second.len() - 1;
        lemma_pairs_map_present(first, m);
        lemma_pairs_map_present(second, n);
        let j = lemma_pairs_map_source(second, first[m].0@);
        let k = lemma_pairs_map_source(first, second[n].0@);
        if first[m].0@ != second[n].0@ {
            assert(k != m && j != n);
            assert(lex_lt(first[k].0@, first[m].0@));
            assert(lex_lt(second[j].0@, second[n].0@));
            lemma_lex_lt_asymmetric(first[m].0@, second[n].0@);
        }
        let front = first.drop_last();
        let back = second.drop_last();
        lemma_front_of_ascending(first);
        lemma_front_of_ascending(second);
        lemma_ascending_pairs_are_determined(front, back);
        assert forall|i: int| 0 <= i < first.len() implies (#[trigger] first[i]).0@ == second[i].0@
            && first[i].1@ == second[i].1@ by {
            if i < m {
                assert(front[i] == first[i] && back[i] == second[i]);
            }
        }
    }
}

/// An ascending list without its last pair is ascending, and stands for the
/// map without that pair's name.
proof fn lemma_front_of_ascending(pairs: Seq<(String, String)>)
    requires
        strictly_ascending(pairs),
        pairs.len() > 0,
    ensures
        strictly_ascending(pairs.drop_last()),
        pairs_map(pairs.drop_last()) == pairs_map(pairs).remove(pairs.last().0@),
{
    let front = pairs.drop_last();
    let name = pairs.last().0@;
    assert forall|i: int, j: int| 0 <= i < j < front.len() implies lex_lt(
        #[trigger] front[i].0@,
        #[trigger] front[j].0@,
    ) by {
        assert(front[i] == pairs[i] && front[j] == pairs[j]);
    }
    lemma_pairs_map_binds(front, name);
    lemma_lex_lt_irreflexive(name);
    assert forall|i: int| 0 <= i < front.len() implies (#[trigger] front[i]).0@ != name by {
        assert(front[i] == pairs[i]);
        assert(lex_lt(pairs[i].0@, pairs[pairs.len() - 1].0@));
    }
    assert(pairs_map(front) =~= pairs_map(pairs).remove(name));
}

} // verus!
