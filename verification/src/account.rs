//! The accounts of a configuration: lookup by alias, and the listing in
//! order of alias.

use vstd::prelude::*;
use crate::command::{verdict_of, CommandOutcome, CommandSpec, CommandSpecView};
use crate::error::{result_view, Error, ErrorView};
use crate::params::Parameters;
use crate::provider::{command_of, Provider};
use crate::text::{
    lemma_lex_le_total, lemma_lex_lt_asymmetric, lemma_lex_lt_irreflexive,
    lemma_lex_lt_transitive, lex_le, lex_lt, precedes,
};

verus! {

/// A named set of credentials for one provider.
#[derive(Debug, PartialEq, Eq)]
pub struct Account {
    pub alias: String,
    pub provider: Provider,
    pub params: Parameters,
}

/// The accounts of a configuration, in the order of the document.
#[derive(Debug)]
pub struct Accounts(Vec<Account>);

impl View for Accounts {
    type V = Seq<Account>;

    closed spec fn view(&self) -> Seq<Account> {
        self.0@
    }
}

/// `at` is the place of the first account that carries `alias`.
pub open spec fn is_first_with_alias(accounts: Seq<Account>, alias: Seq<char>, at: int) -> bool {
    &&& 0 <= at < accounts.len()
    &&& accounts[at].alias@ == alias
    &&& forall|k: int| 0 <= k < at ==> (#[trigger] accounts[k]).alias@ != alias
}

/// Some account carries `alias`.
pub open spec fn has_alias(accounts: Seq<Account>, alias: Seq<char>) -> bool {
    exists|k: int| 0 <= k < accounts.len() && (#[trigger] accounts[k]).alias@ == alias
}

/// The aliases never fall from one account to a later one.
pub open spec fn ascending_by_alias(accounts: Seq<Account>) -> bool {
    forall|i: int, j: int|
        0 <= i < j < accounts.len() ==> lex_le(
            (#[trigger] accounts[i]).alias@,
            (#[trigger] accounts[j]).alias@,
        )
}

/// The accounts that carry `alias`, in the order in which they stand.
pub open spec fn with_alias(accounts: Seq<Account>, alias: Seq<char>) -> Seq<Account>
    decreases accounts.len(),
{
    if accounts.len() == 0 {
        Seq::empty()
    } else {
        let front = with_alias(accounts.drop_last(), alias);
        if accounts.last().alias@ == alias {
            front.push(accounts.last())
        } else {
            front
        }
    }
}

/// `listing` holds the accounts of `accounts` in ascending order of alias,
/// those of one alias in the order they had in `accounts`.
pub open spec fn is_listing_of(listing: Seq<Account>, accounts: Seq<Account>) -> bool {
    &&& ascending_by_alias(listing)
    &&& listing.to_multiset() == accounts.to_multiset()
    &&& forall|alias: Seq<char>| #[trigger]
        with_alias(listing, alias) == with_alias(accounts, alias)
}

impl Account {
    /// Activates the account: builds its provider's command, has `run`
    /// execute it, and judges how it ended. Where the parameters do not
    /// yield a command, `run` is not called.
    pub fn activate<F>(&self, run: F) -> (r: Result<(), Error>)
        where F: FnOnce(CommandSpec) -> CommandOutcome
        requires
            forall|c: CommandSpec|
                command_of(self.provider, self.params@) == Ok::<CommandSpecView, ErrorView>(c@)
                    ==> #[trigger] call_requires(run, (c,)),
        ensures
            match command_of(self.provider, self.params@) {
                Ok(command) => exists|c: CommandSpec, outcome: CommandOutcome|
                    c@ == command && #[trigger] call_ensures(run, (c,), outcome) && result_view(r)
                        == verdict_of(outcome),
                Err(e) => result_view(r) == Err::<(), ErrorView>(e),
            },
    {
        self.provider.activate_account(self.params.clone(), run)
    }
}

impl Accounts {
    /// The store that holds `accounts`, in that order.
    pub fn new(accounts: Vec<Account>) -> (r: Self)
        ensures
            r@ == accounts@,
    {
        Accounts(accounts)
    }

    /// The accounts, in the order of the store.
    pub fn into_vec(self) -> (r: Vec<Account>)
        ensures
            r@ == self@,
    {
        self.0
    }

    /// Whether the store holds no account.
    pub fn is_empty(&self) -> (r: bool)
        ensures
            r == (self@.len() == 0),
    {
        self.0.is_empty()
    }

    /// The first account that carries `alias`.
    pub fn get(&self, alias: &str) -> (r: Result<&Account, Error>)
        ensures
            match r {
                Ok(account) => exists|at: int|
                    is_first_with_alias(self@, alias@, at) && *account == self@[at],
                Err(e) => !has_alias(self@, alias@) && e@ == ErrorView::UnknownAccount(alias@),
            },
    {
        let wanted = alias.to_owned();
        let mut i: usize = 0;
        while i < self.0.len()
            invariant
                i <= self.0.len(),
                wanted@ == alias@,
                forall|k: int| 0 <= k < i ==> (#[trigger] self.0@[k]).alias@ != alias@,
            decreases self.0.len() - i,
        {
            if self.0[i].alias == wanted {
                assert(is_first_with_alias(self@, alias@, i as int));
                return Ok(&self.0[i]);
            }
            i += 1;
        }
        Err(Error::UnknownAccount(wanted))
    }

    /// The accounts in ascending order of alias. Accounts of one alias keep
    /// the order they had in the store.
    pub fn sorted(self) -> (r: Vec<Account>)
        ensures
            is_listing_of(r@, self@),
    {
        let ghost all = self.0@;
        let mut out: Vec<Account> = Vec::new();
        proof {
            assert(all.take(0) =~= out@);
        }
        for account in it: self.0
            invariant
                it.seq() == all,
                is_listing_of(out@, all.take(it.index())),
        {
            let ghost before = out@;
            let ghost seen = all.take(it.index());
            let mut at: usize = 0;
            while at < out.len() && !precedes(account.alias.as_str(), out[at].alias.as_str())
                invariant
                    at <= out.len(),
                    out@ == before,
                    forall|k: int|
                        0 <= k < at ==> lex_le((#[trigger] before[k]).alias@, account.alias@),
                decreases out.len() - at,
            {
                proof {
                    lemma_lex_le_total(out@[at as int].alias@, account.alias@);
                }
                at += 1;
            }
            out.insert(at, account);
            proof {
                assert(all.take(it.index() + 1) =~= seen.push(account));
                lemma_listing_grows(before, seen, at as int, account);
            }
        }
        proof {
            assert(all.take(all.len() as int) =~= all);
        }
        out
    }
}

/// The accounts of a list that carry `alias` are those of its front
/// followed by those of its back.
proof fn lemma_with_alias_concat(front: Seq<Account>, back: Seq<Account>, alias: Seq<char>)
    ensures
        with_alias(front + back, alias) == with_alias(front, alias) + with_alias(back, alias),
    decreases back.len(),
{
    if back.len() == 0 {
        assert(front + back =~= front);
        assert(with_alias(front, alias) + with_alias(back, alias) =~= with_alias(front, alias));
    } else {
        lemma_with_alias_concat(front, back.drop_last(), alias);
        assert((front + back).drop_last() =~= front + back.drop_last());
        assert((front + back).last() == back.last());
        if back.last().alias@ == alias {
            assert((with_alias(front, alias) + with_alias(back.drop_last(), alias)).push(
                back.last(),
            ) =~= with_alias(front, alias) + with_alias(back.drop_last(), alias).push(back.last()));
        }
    }
}

/// Where no account carries `alias`, none is selected.
proof fn lemma_with_alias_none(accounts: Seq<Account>, alias: Seq<char>)
    requires
        forall|k: int| 0 <= k < accounts.len() ==> (#[trigger] accounts[k]).alias@ != alias,
    ensures
        with_alias(accounts, alias) == Seq::<Account>::empty(),
    decreases accounts.len(),
{
    if accounts.len() > 0 {
        let front = accounts.drop_last();
        assert forall|k: int| 0 <= k < front.len() implies (#[trigger] front[k]).alias@
            != alias by {
            assert(front[k] == accounts[k]);
        }
        lemma_with_alias_none(front, alias);
        assert(accounts.last() == accounts[accounts.len() - 1]);
    }
}

/// A listing stays one when the next account of the store is put behind the
/// accounts that do not come after it and before those that do.
proof fn lemma_listing_grows(listing: Seq<Account>, seen: Seq<Account>, at: int, account: Account)
    requires
        is_listing_of(listing, seen),
        0 <= at <= listing.len(),
        forall|k: int| 0 <= k < at ==> lex_le((#[trigger] listing[k]).alias@, account.alias@),
        at < listing.len() ==> lex_lt(account.alias@, listing[at].alias@),
    ensures
        is_listing_of(listing.insert(at, account), seen.push(account)),
{
    broadcast use vstd::seq_lib::to_multiset_insert, vstd::seq_lib::to_multiset_build;

    let grown = listing.insert(at, account);
    let low = listing.subrange(0, at);
    let high = listing.subrange(at, listing.len() as int);
    assert(listing =~= low + high);
    assert(grown =~= low.push(account) + high);
    assert forall|k: int| 0 <= k < high.len() implies lex_lt(
        account.alias@,
        (#[trigger] high[k]).alias@,
    ) by {
        assert(high[k] == listing[at + k]);
        if k > 0 {
            assert(lex_le(listing[at].alias@, listing[at + k].alias@));
            if listing[at].alias@ != listing[at + k].alias@ {
                lemma_lex_lt_transitive(
                    account.alias@,
                    listing[at].alias@,
                    listing[at + k].alias@,
                );
            }
        }
    }
    assert forall|i: int, j: int| 0 <= i < j < grown.len() implies lex_le(
        (#[trigger] grown[i]).alias@,
        (#[trigger] grown[j]).alias@,
    ) by {
        if j == at {
            assert(grown[i] == listing[i]);
        } else if i == at {
            assert(grown[j] == high[j - at - 1]);
        } else {
            let a = if i < at { i } else { i - 1 };
            let b = if j < at { j } else { j - 1 };
            assert(grown[i] == listing[a] && grown[j] == listing[b]);
        }
    }
    assert(grown.to_multiset() =~= seen.push(account).to_multiset());
    assert forall|alias: Seq<char>| #[trigger]
        with_alias(grown, alias) == with_alias(seen.push(account), alias) by {
        lemma_with_alias_concat(low, high, alias);
        lemma_with_alias_concat(low.push(account), high, alias);
        assert(low.push(account).drop_last() =~= low);
        assert(seen.push(account).drop_last() =~= seen);
        assert(with_alias(listing, alias) == with_alias(seen, alias));
        if account.alias@ == alias {
            lemma_lex_lt_irreflexive(alias);
            lemma_with_alias_none(high, alias);
            assert(with_alias(low, alias).push(account) + Seq::<Account>::empty() =~= (with_alias(
                low,
                alias,
            ) + Seq::<Account>::empty()).push(account));
        }
    }
}

/// Where some account is selected by `alias`, some account carries it.
proof fn lemma_with_alias_source(accounts: Seq<Account>, alias: Seq<char>) -> (at: int)
    requires
        with_alias(accounts, alias).len() > 0,
    ensures
        0 <= at < accounts.len(),
        accounts[at].alias@ == alias,
{
    if forall|k: int| 0 <= k < accounts.len() ==> (#[trigger] accounts[k]).alias@ != alias {
        lemma_with_alias_none(accounts, alias);
        0
    } else {
        choose|k: int| 0 <= k < accounts.len() && (#[trigger] accounts[k]).alias@ == alias
    }
}

/// Two ascending lists of one length that select the same accounts for
/// every alias are the same list.
proof fn lemma_same_selections(first: Seq<Account>, second: Seq<Account>)
    requires
        ascending_by_alias(first),
        ascending_by_alias(second),
        first.len() == second.len(),
        forall|alias: Seq<char>| #[trigger] with_alias(first, alias) == with_alias(second, alias),
    ensures
        first == second,
    decreases first.len(),
{
    if first.len() == 0 {
        assert(first =~= second);
    } else {
        let x = first.last();
        let y = second.last();
        let i = lemma_with_alias_source(second, x.alias@);
        let j = lemma_with_alias_source(first, y.alias@);
        assert(lex_le(second[i].alias@, y.alias@));
        assert(lex_le(first[j].alias@, x.alias@));
        if x.alias@ != y.alias@ {
            lemma_lex_lt_asymmetric(x.alias@, y.alias@);
        }
        assert(with_alias(first, x.alias@).last() == x);
        assert(with_alias(second, x.alias@).last() == y);
        let front = first.drop_last();
        let back = second.drop_last();
        assert forall|alias: Seq<char>| #[trigger]
            with_alias(front, alias) == with_alias(back, alias) by {
            assert(with_alias(first, alias) == with_alias(second, alias));
            if alias == x.alias@ {
                assert(with_alias(front, alias) =~= with_alias(first, alias).drop_last());
                assert(with_alias(back, alias) =~= with_alias(second, alias).drop_last());
            }
        }
        assert forall|a: int, b: int| 0 <= a < b < front.len() implies lex_le(
            (#[trigger] front[a]).alias@,
            (#[trigger] front[b]).alias@,
        ) by {
            assert(front[a] == first[a] && front[b] == first[b]);
        }
        assert forall|a: int, b: int| 0 <= a < b < back.len() implies lex_le(
            (#[trigger] back[a]).alias@,
            (#[trigger] back[b]).alias@,
        ) by {
            assert(back[a] == second[a] && back[b] == second[b]);
        }
        lemma_same_selections(front, back);
        assert(first =~= front.push(x));
        assert(second =~= back.push(y));
    }
}

/// A store has one listing only: the order of the aliases and the order
/// that accounts of one alias have in the store leave no choice.
pub proof fn lemma_listing_is_unique(
    first: Seq<Account>,
    second: Seq<Account>,
    accounts: Seq<Account>,
)
    requires
        is_listing_of(first, accounts),
        is_listing_of(second, accounts),
    ensures
        first == second,
{
    broadcast use vstd::seq_lib::to_multiset_len;

    assert(first.len() == first.to_multiset().len());
    assert(second.len() == second.to_multiset().len());
    assert forall|alias: Seq<char>| #[trigger]
        with_alias(first, alias) == with_alias(second, alias) by {
        assert(with_alias(first, alias) == with_alias(accounts, alias));
        assert(with_alias(second, alias) == with_alias(accounts, alias));
    }
    lemma_same_selections(first, second);
}

/// A lookup finds an account exactly where some account carries the alias,
/// and the place of the first such account is determined.
pub proof fn lemma_first_with_alias(accounts: Seq<Account>, alias: Seq<char>)
    ensures
        has_alias(accounts, alias) <==> exists|at: int| is_first_with_alias(accounts, alias, at),
        forall|a: int, b: int|
            is_first_with_alias(accounts, alias, a) && is_first_with_alias(accounts, alias, b)
                ==> a == b,
{
    if has_alias(accounts, alias) {
        let k = choose|k: int| 0 <= k < accounts.len() && (#[trigger] accounts[k]).alias@ == alias;
        lemma_first_below(accounts, alias, k);
    }
}

/// Below a place that carries `alias` lies the first place that does.
proof fn lemma_first_below(accounts: Seq<Account>, alias: Seq<char>, k: int)
    requires
        0 <= k < accounts.len(),
        accounts[k].alias@ == alias,
    ensures
        exists|at: int| is_first_with_alias(accounts, alias, at),
    decreases k,
{
    if forall|j: int| 0 <= j < k ==> (#[trigger] accounts[j]).alias@ != alias {
        assert(is_first_with_alias(accounts, alias, k));
    } else {
        let j = choose|j: int| 0 <= j < k && (#[trigger] accounts[j]).alias@ == alias;
        lemma_first_below(accounts, alias, j);
    }
}

} // verus!
