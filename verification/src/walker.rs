//! The crawl orchestrator's decision core: page URLs, menu-item extraction,
//! and the per-page state machine. The surrounding process performs each
//! fetch it is told to and feeds the body back in; everything decided here
//! is verified whatever came over the network.

use vstd::prelude::*;

use crate::config::SourceConfig;
use crate::data::DataMap;
use crate::data::DataModel;
use crate::data::TransformedData;
use crate::data::dict_get;
use crate::data::dmodel_elems;
use crate::data::dmodel_entries;
use crate::engine::spec_transform;
use crate::engine::transform_html;
use crate::engine::transform_html_map;
use crate::errors::TransformError;

use crate::rules::TransformSettings;
use crate::rules::rmodel_children;
use crate::rules::spec_prepare_sub;
use crate::rules::prepare_rx_sub_for_replace;
use crate::rx::regex_ok;
use crate::rx::regex_replaced;
use crate::rx::regex_replace_all;
use crate::text::spec_digits;
use crate::text::u64_to_string;
use crate::request::spec_url_combine;
use crate::request::spec_url_combine_all;
use crate::request::strs_model;
use crate::request::url_combine;
use crate::request::url_combine_all;

verus! {

broadcast use vstd::std_specs::vec::group_vec_axioms;

/// The menu URL of a page: the first page takes `first_page_url`, later
/// pages take the substitution template with the page number put in; both
/// hang off the root URL and the filter.
pub open spec fn spec_page_url(
    root_url: Seq<char>,
    filter: Seq<char>,
    first_page_url: Seq<char>,
    prepared_sub: Seq<char>,
    page_number: int,
) -> Seq<char> {
    if page_number < 2 {
        spec_url_combine_all(seq![root_url, filter, first_page_url])
    } else {
        let nums = spec_digits(page_number);
        let page_part = if regex_ok("(\\d+)"@) {
            regex_replaced("(\\d+)"@, prepared_sub, nums)
        } else {
            nums
        };
        spec_url_combine_all(seq![root_url, filter, page_part])
    }
}

/// The `menu_items` list of an extracted menu document, if it has one.
pub open spec fn spec_menu_items(menu: DataModel) -> Option<Seq<DataModel>> {
    match menu {
        DataModel::Dict(es) => match dict_get(es, "menu_items"@) {
            Some(DataModel::List(items)) => Some(items),
            _ => None,
        },
        _ => None,
    }
}

/// The `url` leaf of one menu item, if it has one.
pub open spec fn spec_item_url(item: DataModel) -> Option<Seq<char>> {
    match item {
        DataModel::Dict(es) => match dict_get(es, "url"@) {
            Some(DataModel::Value(u)) => Some(u),
            _ => None,
        },
        _ => None,
    }
}

/// The `url` leaves of every menu item; `None` as soon as one is missing.
pub open spec fn spec_item_urls(items: Seq<DataModel>) -> Option<Seq<Seq<char>>>
    decreases items.len(),
{
    if items.len() == 0 {
        Some(Seq::empty())
    } else {
        match spec_item_url(items[0]) {
            Some(u) => match spec_item_urls(items.skip(1)) {
                Some(rest) => Some(seq![u].add(rest)),
                None => None,
            },
            None => None,
        }
    }
}

/// The views of a vector of strings.
pub open spec fn strings_model(ss: Seq<String>) -> Seq<Seq<char>> {
    Seq::new(ss.len(), |i: int| (ss[i])@)
}

/// The relative card URLs of an extracted menu document: its `menu_items`
/// list with each item's `url` leaf read out; `None` when the document
/// does not have that shape.
pub fn menu_item_urls(menu: &TransformedData) -> (r: Option<Vec<String>>)
    ensures
        match r {
            Some(urls) => spec_menu_items(menu@) matches Some(items) && spec_item_urls(items)
                == Some(strings_model(urls@)),
            None => match spec_menu_items(menu@) {
                Some(items) => spec_item_urls(items) is None,
                None => true,
            },
        },
{
    match menu.get("menu_items") {
        Some(entry) => {
            match entry {
                TransformedData::List(l) => {
                    proof {
                        crate::data::lemma_model_list(*entry);
                        assert(dmodel_elems(l@).skip(0) =~= dmodel_elems(l@));
                    }
                    item_urls_from(l, 0)
                },
                TransformedData::Dict(_) => None,
                TransformedData::Value(_) => None,
            }
        },
        None => None,
    }
}

/// The `url` leaves of the items from index `i` on.
fn item_urls_from(l: &crate::data::DataVec, i: usize) -> (r: Option<Vec<String>>)
    requires
        i <= l@.len(),
    ensures
        match r {
            Some(urls) => spec_item_urls(dmodel_elems(l@).skip(i as int)) == Some(
                strings_model(urls@),
            ),
            None => spec_item_urls(dmodel_elems(l@).skip(i as int)) is None,
        },
    decreases l@.len() - i,
{
    proof {
        crate::data::lemma_elems_model(l@);
    }
    let ghost gitems = dmodel_elems(l@).skip(i as int);
    if i == l.len() {
        proof {
            assert(gitems.len() == 0);
        }
        let urls: Vec<String> = Vec::new();
        proof {
            assert(strings_model(urls@) =~= Seq::<Seq<char>>::empty());
        }
        return Some(urls);
    }
    proof {
        assert(gitems[0] == dmodel_elems(l@)[i as int]);
        assert(gitems.skip(1) =~= dmodel_elems(l@).skip(i + 1));
    }
    let u: String;
    match l[i].get("url") {
        Some(entry) => {
            match entry {
                TransformedData::Value(s) => {
                    u = String::from_str(s.as_str());
                },
                TransformedData::Dict(_) => {
                    return None;
                },
                TransformedData::List(_) => {
                    return None;
                },
            }
        },
        None => {
            return None;
        },
    }
    match item_urls_from(l, i + 1) {
        Some(mut rest) => {
            rest.insert(0, u);
            proof {
                assert(strings_model(rest@) =~= seq![u@].add(
                    strings_model(rest@.skip(1)),
                ));
            }
            Some(rest)
        },
        None => None,
    }
}

/// A failure while one page was processed; attributable to that page and
/// harmless to its siblings.
#[derive(Debug)]
pub enum PageError {
    /// The extraction engine failed on this page's markup.
    Transform { error: TransformError },
    /// The menu document lacked the `menu_items` list, or an item its
    /// `url` leaf.
    MenuShape,
}

/// One page's progress: the relative card URLs still to fetch, how many
/// are done, and the card records collected so far.
#[derive(Debug)]
pub struct PageTask {
    pub page_number: usize,
    pub pending: Vec<String>,
    pub next: usize,
    pub records: Vec<DataMap>,
}

/// The decision core of the crawl orchestrator: the resolved source, the
/// substitution template translated once at load, and the depth limit the
/// engine runs under.
pub struct PageWalkerCore {
    pub source: SourceConfig,
    pub menu_page_url_sub: String,
    pub max_depth_level: usize,
}

impl PageWalkerCore {
    /// Resolve a source into a walker core, translating the page-number
    /// template once.
    pub fn create(source: SourceConfig, max_depth_level: usize) -> (r: Self)
        ensures
            r.source == source,
            r.max_depth_level == max_depth_level,
            r.menu_page_url_sub@ == spec_prepare_sub(source.menu.page_url_sub@),
    {
        let sub = prepare_rx_sub_for_replace(source.menu.page_url_sub.as_str());
        PageWalkerCore { source, menu_page_url_sub: sub, max_depth_level }
    }

    /// The source this core walks.
    pub fn source_config(&self) -> (r: &SourceConfig)
        ensures
            *r == self.source,
    {
        &self.source
    }

    /// The menu URL of one page, per `spec_page_url`.
    pub fn sub_page_number(&self, filter_url: &str, page_number: u64) -> (r: String)
        ensures
            r@ == spec_page_url(
                self.source.root_url@,
                filter_url@,
                self.source.menu.first_page_url@,
                self.menu_page_url_sub@,
                page_number as int,
            ),
    {
        if page_number < 2 {
            let mut parts: Vec<&str> = Vec::new();
            parts.push(self.source.root_url.as_str());
            parts.push(filter_url);
            parts.push(self.source.menu.first_page_url.as_str());
            let r = url_combine_all(parts.as_slice());
            proof {
                assert(strs_model(parts@) =~= seq![
                    self.source.root_url@,
                    filter_url@,
                    self.source.menu.first_page_url@,
                ]);
            }
            r
        } else {
            let num = u64_to_string(page_number);
            let page_part = match regex_replace_all(
                "(\\d+)",
                self.menu_page_url_sub.as_str(),
                num.as_str(),
            ) {
                Some(s) => s,
                None => num,
            };
            let mut parts: Vec<&str> = Vec::new();
            parts.push(self.source.root_url.as_str());
            parts.push(filter_url);
            parts.push(page_part.as_str());
            let r = url_combine_all(parts.as_slice());
            proof {
                assert(strs_model(parts@) =~= seq![
                    self.source.root_url@,
                    filter_url@,
                    page_part@,
                ]);
            }
            r
        }
    }

    /// The engine settings this core extracts under.
    fn settings(&self) -> (r: TransformSettings)
        ensures
            r.max_depth_level == self.max_depth_level,
    {
        TransformSettings {
            max_depth_level: self.max_depth_level,
            default_key_name: String::from_str("list"),
        }
    }

    /// A fetched menu page: extract it and read the card URLs out. A page
    /// with zero items yields a task that is already complete with an
    /// explicit empty record list, distinct from any failure.
    pub fn on_menu_html(&self, page_number: usize, html: &str) -> (r: Result<PageTask, PageError>)
        ensures
            ({
                let m = spec_transform(
                    html@,
                    rmodel_children(self.source.menu.rules@),
                    self.max_depth_level as int,
                );
                match m {
                    Err(e) => r matches Err(pe) && pe matches PageError::Transform { error }
                        && error@ == e,
                    Ok(d) => match spec_menu_items(d) {
                        None => r matches Err(pe) && pe is MenuShape,
                        Some(items) => match spec_item_urls(items) {
                            None => r matches Err(pe) && pe is MenuShape,
                            Some(urls) => r matches Ok(t) && t.page_number == page_number && t.next
                                == 0 && t.records@.len() == 0 && strings_model(t.pending@) == urls,
                        },
                    },
                }
            }),
    {
        let settings = self.settings();
        let menu = match transform_html(html, self.source.menu.rules.as_slice(), &settings) {
            Ok(d) => d,
            Err(e) => {
                return Err(PageError::Transform { error: e });
            },
        };
        match menu_item_urls(&menu) {
            Some(urls) => Ok(PageTask { page_number, pending: urls, next: 0, records: Vec::new() }),
            None => Err(PageError::MenuShape),
        }
    }

    /// The absolute URL of the next card to fetch, or nothing when the
    /// page's work is done.
    pub fn next_card_url(&self, task: &PageTask) -> (r: Option<String>)
        ensures
            task.next < task.pending@.len() ==> (r matches Some(u) && u@ == spec_url_combine(
                self.source.root_url@,
                (task.pending@[task.next as int])@,
            )),
            task.next >= task.pending@.len() ==> r is None,
    {
        if task.next < task.pending.len() {
            Some(url_combine(self.source.root_url.as_str(), task.pending[task.next].as_str()))
        } else {
            None
        }
    }

    /// A fetched card page: extract it and append the record; the task
    /// advances to the next card exactly on success.
    pub fn on_card_html(&self, task: &mut PageTask, html: &str) -> (r: Result<(), PageError>)
        requires
            old(task).next < old(task).pending@.len(),
        ensures
            final(task).page_number == old(task).page_number,
            final(task).pending == old(task).pending,
            ({
                let m = spec_transform(
                    html@,
                    rmodel_children(self.source.card.rules@),
                    self.max_depth_level as int,
                );
                match m {
                    Err(e) => (r matches Err(pe) && (pe matches PageError::Transform { error } && (
                    error@ == e && *final(task) == *old(task)))),
                    Ok(d) => (r is Ok && final(task).next == old(task).next + 1
                        && final(task).records@.len() == old(task).records@.len() + 1
                        && final(task).records@.take(old(task).records@.len() as int)
                        == old(task).records@
                        && DataModel::Dict(dmodel_entries((final(task).records@.last())@)) == d),
                }
            }),
    {
        let settings = self.settings();
        match transform_html_map(html, self.source.card.rules.as_slice(), &settings) {
            Ok(m) => {
                let ghost r0 = task.records@;
                let pn = task.pending.len();
                task.records.push(m);
                task.next = task.next + 1;
                proof {
                    assert(task.records@.take(r0.len() as int) =~= r0);
                }
                Ok(())
            },
            Err(e) => Err(PageError::Transform { error: e }),
        }
    }
}

} // verus!
