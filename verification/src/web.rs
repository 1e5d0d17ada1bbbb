//! What the engine knows of the provider: the houses it lists, how long a
//! list of them is good for, and how a snapshot is asked for.

use vstd::prelude::*;
use crate::date::Date;
use crate::error::{Error, ErrorView, IngestionError};
use crate::parse::{trim, trim_range};
use crate::text::{
    chars_of, push_signed_decimal, push_str_chars, same_text, signed_decimal, string_of,
    string_of_range,
};

verus! {

/// A house as the provider lists it: the name shown and the provider's own
/// id for it.
#[derive(Debug, PartialEq, Eq)]
pub struct House {
    pub name: String,
    pub value: String,
}

/// A `House` with its texts as sequences of characters.
pub struct HouseView {
    pub name: Seq<char>,
    pub value: Seq<char>,
}

impl View for House {
    type V = HouseView;

    open spec fn view(&self) -> HouseView {
        HouseView { name: self.name@, value: self.value@ }
    }
}

impl DeepView for House {
    type V = HouseView;

    open spec fn deep_view(&self) -> HouseView {
        self@
    }
}

impl Clone for House {
    fn clone(&self) -> (copy: Self)
        ensures
            copy == *self,
    {
        House { name: self.name.clone(), value: self.value.clone() }
    }
}

/// A copy of `houses`.
pub fn copy_houses(houses: &Vec<House>) -> (copy: Vec<House>)
    ensures
        copy.deep_view() == houses.deep_view(),
{
    let mut out: Vec<House> = Vec::new();
    let mut i: usize = 0;
    while i < houses.len()
        invariant
            i <= houses.len(),
            out@.len() == i,
            forall|k: int| 0 <= k < i ==> out@[k] == houses@[k],
        decreases houses.len() - i,
    {
        out.push(houses[i].clone());
        i = i + 1;
    }
    assert(out.deep_view() =~= houses.deep_view());
    out
}

// ---------------------------------------------------------------------
// The list of houses on the provider's page
// ---------------------------------------------------------------------

/// The selector of the lists on the provider's page; the first one found
/// lists the houses.
pub const HOUSE_LIST: &'static str = "select[onchange]";

/// The selector of the entries of a list.
pub const HOUSE_ENTRY: &'static str = "option";

/// The attribute of an entry that holds the provider's id for the house.
pub const HOUSE_VALUE: &'static str = "value";

/// The id that stands for "no house".
pub const NO_VALUE: &'static str = "N/A";

/// One entry of a list on a page: its inner HTML and the value of one of its
/// attributes, if it has that attribute.
pub type EntryView = (Seq<char>, Option<Seq<char>>);

/// What `select_nested` finds in the page `html`: for each element that
/// `Html::select` hands out for the selector `outer`, the elements below it
/// that `ElementRef::select` hands out for the selector `inner`, each as its
/// inner HTML and the value of its attribute `attribute`; the lists and
/// their entries stand as the two calls hand them out. `None` where one of
/// the selectors cannot be read.
pub uninterp spec fn page_entries(html: Seq<char>, outer: Seq<char>, inner: Seq<char>, attribute: Seq<char>) -> Option<Seq<Seq<EntryView>>>;

/// Reads the two selectors with `scraper::Selector::parse` and the page with
/// `scraper::Html::parse_document`, walks `Html::select` for `outer` and,
/// below each element found, `ElementRef::select` for `inner`, and takes from
/// each of those `ElementRef::inner_html` and `ElementRef::attr`. Nothing is
/// claimed of what comes back but that it is what these functions give for
/// these arguments.
#[verifier::external_body]
fn select_nested(html: &str, outer: &str, inner: &str, attribute: &str) -> (found: Option<
    Vec<Vec<(String, Option<String>)>>,
>)
    ensures
        found.deep_view() == page_entries(html@, outer@, inner@, attribute@),
{
    let outer = scraper::Selector::parse(outer).ok()?;
    let inner = scraper::Selector::parse(inner).ok()?;
    let document = scraper::Html::parse_document(html);
    let pick = |e: scraper::ElementRef| (e.inner_html(), e.attr(attribute).map(String::from));
    Some(document.select(&outer).map(|list| list.select(&inner).map(pick).collect()).collect())
}

/// The house that an entry stands for: its name is the text of the entry
/// without the white space around it, its value the id that the entry
/// carries. An entry without an id, or with the id `N/A`, stands for none.
pub open spec fn house_of_entry(entry: EntryView) -> Option<HouseView> {
    match entry.1 {
        Some(value) => if value == NO_VALUE@ {
            None
        } else {
            Some(HouseView { name: trim(entry.0), value })
        },
        None => None,
    }
}

/// The houses that the entries of a list stand for, in the order of the
/// entries.
pub open spec fn houses_of_entries(entries: Seq<EntryView>) -> Seq<HouseView>
    decreases entries.len(),
{
    if entries.len() == 0 {
        Seq::<HouseView>::empty()
    } else {
        let head = houses_of_entries(entries.drop_last());
        match house_of_entry(entries.last()) {
            Some(house) => head.push(house),
            None => head,
        }
    }
}

/// The houses of a page with these lists: those of the first list, and none
/// where the page has no list.
pub open spec fn houses_of_lists(lists: Seq<Seq<EntryView>>) -> Seq<HouseView> {
    if lists.len() == 0 {
        Seq::<HouseView>::empty()
    } else {
        houses_of_entries(lists[0])
    }
}

/// The houses that the provider's page `html` lists.
pub open spec fn houses_of_page(html: Seq<char>) -> Option<Seq<HouseView>> {
    match page_entries(html, HOUSE_LIST@, HOUSE_ENTRY@, HOUSE_VALUE@) {
        Some(lists) => Some(houses_of_lists(lists)),
        None => None,
    }
}

/// The houses that the entries of a list stand for, in the order of the
/// entries.
pub fn houses_from_entries(entries: &Vec<(String, Option<String>)>) -> (houses: Vec<House>)
    ensures
        houses.deep_view() == houses_of_entries(entries.deep_view()),
{
    let ghost all = entries.deep_view();
    let mut out: Vec<House> = Vec::new();
    let mut i: usize = 0;
    assert(all.take(0) =~= Seq::<EntryView>::empty());
    assert(out.deep_view() =~= Seq::<HouseView>::empty());
    while i < entries.len()
        invariant
            i <= entries.len(),
            all == entries.deep_view(),
            out.deep_view() == houses_of_entries(all.take(i as int)),
        decreases entries.len() - i,
    {
        let entry = &entries[i];
        let ghost before = out.deep_view();
        proof {
            assert(all.take(i + 1).drop_last() =~= all.take(i as int));
            assert(all.take(i + 1).last() == entry.deep_view());
        }
        match &entry.1 {
            Some(value) => {
                if !same_text(value.as_str(), NO_VALUE) {
                    let text = chars_of(entry.0.as_str());
                    let (from, to) = trim_range(&text, 0, text.len());
                    assert(text@.subrange(0, text@.len() as int) == text@);
                    let house = House {
                        name: string_of_range(&text, from, to),
                        value: value.clone(),
                    };
                    let ghost shown = house@;
                    out.push(house);
                    assert(out.deep_view() =~= before.push(shown));
                }
            },
            None => {},
        }
        i = i + 1;
    }
    assert(all.take(all.len() as int) =~= all);
    out
}

/// The houses of a page with these lists: those of the first list.
pub fn houses_from_lists(lists: &Vec<Vec<(String, Option<String>)>>) -> (houses: Vec<House>)
    ensures
        houses.deep_view() == houses_of_lists(lists.deep_view()),
{
    if lists.len() == 0 {
        let none: Vec<House> = Vec::new();
        assert(none.deep_view() =~= Seq::<HouseView>::empty());
        none
    } else {
        houses_from_entries(&lists[0])
    }
}

/// The houses that the provider's page `body` lists: the entries of its
/// first list that carry an id. `None` only where the selectors themselves
/// were refused.
pub fn parse_houses(body: &str) -> (houses: Option<Vec<House>>)
    ensures
        houses.deep_view() == houses_of_page(body@),
{
    match select_nested(body, HOUSE_LIST, HOUSE_ENTRY, HOUSE_VALUE) {
        Some(lists) => Some(houses_from_lists(&lists)),
        None => None,
    }
}

// ---------------------------------------------------------------------
// The cached list of houses
// ---------------------------------------------------------------------

/// How long a fetched list of houses is good for, in seconds: three hours.
pub const CACHE_DURATION: u64 = 10800;

/// What the cache holds: nothing, or a list of houses and the second at
/// which it was fetched.
pub type CacheView = Option<(Seq<HouseView>, u64)>;

/// Whether a list fetched at the second `fetched_at` is still good at the
/// second `now`: no more than three hours have passed.
pub open spec fn is_fresh(fetched_at: u64, now: u64) -> bool {
    now <= fetched_at || now - fetched_at <= CACHE_DURATION
}

/// The list that the cache hands out at `now` without a fetch, if it holds
/// one that is still good.
pub open spec fn served(cache: CacheView, now: u64) -> Option<Seq<HouseView>> {
    match cache {
        Some((houses, fetched_at)) => if is_fresh(fetched_at, now) {
            Some(houses)
        } else {
            None
        },
        None => None,
    }
}

/// The cache after a fetch at `now` ended with `fetched`: the new list on
/// success, what it held before on failure.
pub open spec fn refreshed(cache: CacheView, fetched: Option<Seq<HouseView>>, now: u64) -> CacheView {
    match fetched {
        Some(houses) => Some((houses, now)),
        None => cache,
    }
}

/// The one cached list of houses of the process.
pub struct HouseCache {
    entry: Option<(Vec<House>, u64)>,
}

impl View for HouseCache {
    type V = CacheView;

    closed spec fn view(&self) -> CacheView {
        match self.entry {
            Some((houses, fetched_at)) => Some((houses.deep_view(), fetched_at)),
            None => None,
        }
    }
}

impl HouseCache {
    /// A cache that holds nothing.
    pub fn new() -> (cache: HouseCache)
        ensures
            cache@ is None,
    {
        HouseCache { entry: None }
    }

    /// A copy of the cached list if it is still good at the second `now`;
    /// `None` where the cache holds nothing or the list is older than three
    /// hours, in which case the caller has to fetch.
    pub fn get(&self, now: u64) -> (houses: Option<Vec<House>>)
        ensures
            houses.deep_view() == served(self@, now),
    {
        match &self.entry {
            Some((houses, fetched_at)) => {
                if now <= *fetched_at || now - *fetched_at <= CACHE_DURATION {
                    Some(copy_houses(houses))
                } else {
                    None
                }
            },
            None => None,
        }
    }

    /// Takes in the end of a fetch made at the second `now`. A list that was
    /// fetched takes the place of what the cache held, and a copy of it comes
    /// back; a failure is handed on, and the cache keeps what it held.
    pub fn store<E>(&mut self, fetched: Result<Vec<House>, E>, now: u64) -> (outcome: Result<
        Vec<House>,
        E,
    >)
        ensures
            match fetched {
                Ok(houses) => outcome is Ok && outcome->Ok_0.deep_view() == houses.deep_view()
                    && final(self)@ == refreshed(old(self)@, Some(houses.deep_view()), now),
                Err(e) => outcome == Err::<Vec<House>, E>(e) && final(self)@ == refreshed(
                    old(self)@,
                    None,
                    now,
                ),
            },
    {
        match fetched {
            Ok(houses) => {
                let copy = copy_houses(&houses);
                self.entry = Some((houses, now));
                Ok(copy)
            },
            Err(e) => Err(e),
        }
    }
}

/// After a list was fetched, every call within the next three hours is
/// served from the cache, with that list: no second fetch is made.
pub proof fn lemma_served_within_three_hours(
    cache: CacheView,
    houses: Seq<HouseView>,
    fetched_at: u64,
    now: u64,
)
    requires
        fetched_at <= now <= fetched_at + CACHE_DURATION,
    ensures
        served(refreshed(cache, Some(houses), fetched_at), now) == Some(houses),
{
}

/// Of two calls no more than three hours apart, the second one needs a
/// fetch only if the first one needed none: together they fetch at most
/// once, as long as a fetch that is made succeeds.
pub proof fn lemma_two_calls_one_fetch(
    cache: CacheView,
    houses: Seq<HouseView>,
    first: u64,
    second: u64,
)
    requires
        first <= second <= first + CACHE_DURATION,
    ensures
        served(cache, first) is None ==> served(
            refreshed(cache, Some(houses), first),
            second,
        ) is Some,
{
}

/// Once more than three hours have passed since the list was fetched, a
/// call needs a fetch; and when that fetch succeeds, the calls of the three
/// hours after it need none.
pub proof fn lemma_one_fetch_after_expiry(
    old_houses: Seq<HouseView>,
    fetched_at: u64,
    new_houses: Seq<HouseView>,
    now: u64,
    later: u64,
)
    requires
        now > fetched_at + CACHE_DURATION,
        now <= later <= now + CACHE_DURATION,
    ensures
        served(Some((old_houses, fetched_at)), now) is None,
        served(refreshed(Some((old_houses, fetched_at)), Some(new_houses), now), later) == Some(
            new_houses,
        ),
{
}

/// The cache after the callers at the seconds `times` have called, one
/// after the other as the lock around the cache lets them, where every fetch
/// that is made succeeds with the list `fetched`.
pub open spec fn after_calls(cache: CacheView, times: Seq<u64>, fetched: Seq<HouseView>) -> CacheView
    decreases times.len(),
{
    if times.len() == 0 {
        cache
    } else {
        let before = after_calls(cache, times.drop_last(), fetched);
        if served(before, times.last()) is Some {
            before
        } else {
            refreshed(before, Some(fetched), times.last())
        }
    }
}

/// How many fetches the callers at the seconds `times` make between them.
pub open spec fn fetches(cache: CacheView, times: Seq<u64>, fetched: Seq<HouseView>) -> nat
    decreases times.len(),
{
    if times.len() == 0 {
        0
    } else {
        fetches(cache, times.drop_last(), fetched) + if served(
            after_calls(cache, times.drop_last(), fetched),
            times.last(),
        ) is Some {
            0nat
        } else {
            1nat
        }
    }
}

/// The list that the caller at position `k` of `times` gets: the cached one
/// if it is still good when its turn comes, else the one it fetches.
pub open spec fn answer(cache: CacheView, times: Seq<u64>, fetched: Seq<HouseView>, k: int) -> Seq<
    HouseView,
> {
    match served(after_calls(cache, times.take(k), fetched), times[k]) {
        Some(houses) => houses,
        None => fetched,
    }
}

/// Whether the seconds of `times` do not go back and span no more than three
/// hours from the first to the last.
pub open spec fn within_three_hours(times: Seq<u64>) -> bool {
    &&& forall|i: int, j: int| 0 <= i <= j < times.len() ==> times[i] <= times[j]
    &&& times.len() > 0 ==> times.last() - times[0] <= CACHE_DURATION
}

/// Callers that call one after the other within three hours make at most one
/// fetch between them, whatever the cache held before.
pub proof fn lemma_calls_within_three_hours(
    cache: CacheView,
    times: Seq<u64>,
    fetched: Seq<HouseView>,
)
    requires
        within_three_hours(times),
    ensures
        fetches(cache, times, fetched) <= 1,
        fetches(cache, times, fetched) == 0 ==> after_calls(cache, times, fetched) == cache,
        fetches(cache, times, fetched) == 1 ==> exists|k: int|
            0 <= k < times.len() && after_calls(cache, times, fetched) == Some(
                (fetched, #[trigger] times[k]),
            ),
    decreases times.len(),
{
    if times.len() > 0 {
        let front = times.drop_last();
        assert(within_three_hours(front)) by {
            assert forall|i: int, j: int| 0 <= i <= j < front.len() implies front[i] <= front[j] by {
                assert(front[i] == times[i] && front[j] == times[j]);
            }
            if front.len() > 0 {
                assert(front.last() == times[front.len() - 1]);
                assert(front[0] == times[0]);
            }
        }
        lemma_calls_within_three_hours(cache, front, fetched);
        if fetches(cache, front, fetched) == 1 {
            let k = choose|k: int|
                0 <= k < front.len() && after_calls(cache, front, fetched) == Some(
                    (fetched, #[trigger] front[k]),
                );
            assert(front[k] == times[k]);
            assert(times[0] <= times[k] <= times[times.len() - 1]);
            assert(served(after_calls(cache, front, fetched), times.last()) is Some);
        } else if served(cache, times.last()) is None {
            assert(after_calls(cache, times, fetched) == Some((fetched, times[times.len() - 1])));
        }
    }
}

/// Once more than three hours have passed since the cached list was fetched,
/// callers that call one after the other within three hours make exactly
/// one fetch between them, each of them gets the list that was fetched, and
/// the cache then holds that list with the second of that fetch, which is
/// the second of the first caller.
pub proof fn lemma_calls_after_expiry(
    old_houses: Seq<HouseView>,
    fetched_at: u64,
    times: Seq<u64>,
    fetched: Seq<HouseView>,
)
    requires
        times.len() >= 1,
        within_three_hours(times),
        times[0] > fetched_at + CACHE_DURATION,
    ensures
        fetches(Some((old_houses, fetched_at)), times, fetched) == 1,
        after_calls(Some((old_houses, fetched_at)), times, fetched) == Some((fetched, times[0])),
        forall|k: int|
            0 <= k < times.len() ==> #[trigger] answer(
                Some((old_houses, fetched_at)),
                times,
                fetched,
                k,
            ) == fetched,
    decreases times.len(),
{
    let cache: CacheView = Some((old_houses, fetched_at));
    let front = times.drop_last();
    if times.len() == 1 {
        assert(fetches(cache, front, fetched) == 0);
        assert(after_calls(cache, front, fetched) == cache);
        assert(times.last() == times[0]);
        assert(served(cache, times[0]) is None);
    } else {
        assert(within_three_hours(front)) by {
            assert forall|i: int, j: int| 0 <= i <= j < front.len() implies front[i] <= front[j] by {
                assert(front[i] == times[i] && front[j] == times[j]);
            }
            assert(front.last() == times[front.len() - 1]);
            assert(front[0] == times[0]);
        }
        assert(front[0] == times[0]);
        lemma_calls_after_expiry(old_houses, fetched_at, front, fetched);
        assert(times[0] <= times[times.len() - 1]);
        assert(served(after_calls(cache, front, fetched), times.last()) == Some(fetched));
    }
    assert forall|k: int| 0 <= k < times.len() implies #[trigger] answer(
        cache,
        times,
        fetched,
        k,
    ) == fetched by {
        if k == 0 {
            assert(times.take(0).len() == 0);
            assert(served(cache, times[0]) is None);
        } else {
            let part = times.take(k);
            assert(within_three_hours(part)) by {
                assert forall|i: int, j: int| 0 <= i <= j < part.len() implies part[i]
                    <= part[j] by {
                    assert(part[i] == times[i] && part[j] == times[j]);
                }
                assert(part.last() == times[k - 1]);
                assert(part[0] == times[0]);
                assert(times[k - 1] <= times[times.len() - 1]);
            }
            assert(part[0] == times[0]);
            lemma_calls_after_expiry(old_houses, fetched_at, part, fetched);
            assert(times[0] <= times[k] <= times[times.len() - 1]);
        }
    }
}

/// A fetch that fails leaves the cache as it was.
pub proof fn lemma_failed_fetch_keeps_cache(cache: CacheView, now: u64)
    ensures
        refreshed(cache, None, now) == cache,
{
}

// ---------------------------------------------------------------------
// Asking for a snapshot
// ---------------------------------------------------------------------

/// How many raw draws are asked for each day of data.
pub const DRAWS_PER_DAY: i64 = 100;

/// The address of the archive, up to the lottery.
pub const ARCHIVE_ADDRESS: &'static str =
    "https://bicho365.com/wp-content/themes/os-bicho365-child/ajax/lottery-results-archive.php?wp_site_id=1&wp_post_id=323&data%5Bfields%5D%5Blottery%5D=";

/// What stands between the lottery and the date.
pub const ARCHIVE_DATE: &'static str =
    "&data%5Bfields%5D%5Bdraw_type%5D=&data%5Bfields%5D%5Bdatetime%5D=";

/// What stands between the date and the number of draws.
pub const ARCHIVE_COUNT: &'static str = "&data%5Bdisplay%5D%5B%5D=";

/// What the address ends with.
pub const ARCHIVE_TAIL: &'static str = "&data%5Bdisplay%5D%5B%5D=10";

/// The address that gives the snapshot of `lottery` for the `total_days`
/// days up to `today`.
pub open spec fn archive_address(lottery: Seq<char>, total_days: i32, today: Date) -> Seq<char> {
    ARCHIVE_ADDRESS@ + lottery + ARCHIVE_DATE@ + today.iso_text() + ARCHIVE_COUNT@
        + signed_decimal(DRAWS_PER_DAY * total_days) + ARCHIVE_TAIL@
}

/// The address to fetch a snapshot of `lottery` from, for the `total_days`
/// days up to `today`. Fails with `EmptyRequest` where `total_days` is zero:
/// there is nothing to fetch then.
pub fn archive_request(lottery: &str, total_days: i32, today: &Date) -> (address: Result<
    String,
    Error,
>)
    ensures
        total_days == 0 ==> address is Err && address->Err_0@ == ErrorView::Ingestion(
            IngestionError::EmptyRequest,
        ),
        total_days != 0 ==> address is Ok && address->Ok_0@ == archive_address(
            lottery@,
            total_days,
            *today,
        ),
{
    if total_days == 0 {
        return Err(Error::Ingestion(IngestionError::EmptyRequest));
    }
    let mut out: Vec<char> = Vec::new();
    push_str_chars(&mut out, ARCHIVE_ADDRESS);
    push_str_chars(&mut out, lottery);
    push_str_chars(&mut out, ARCHIVE_DATE);
    let date = today.to_iso();
    push_str_chars(&mut out, date.as_str());
    push_str_chars(&mut out, ARCHIVE_COUNT);
    push_signed_decimal(&mut out, DRAWS_PER_DAY * (total_days as i64));
    push_str_chars(&mut out, ARCHIVE_TAIL);
    Ok(string_of(&out))
}

} // verus!
