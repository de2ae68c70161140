//! The catalogue of crawler IP sources: the built-in entries, the default
//! additional entry, and name filtering. Loading extra entries from a file
//! is the caller's business; the catalogue only combines and filters.
use vstd::prelude::*;
use crate::text::contains_seq;
use crate::text::contains_str;

verus! {

use vstd::string::StrSliceExecFns;
use vstd::string::StringExecFns;

/// Crawler IP source configuration.
#[derive(Debug, Clone)]
pub struct CrawlerIpSource {
    pub name: String,
    pub url: String,
    pub description: String,
    pub format: String,
}

/// Static crawler IP source configuration, for built-in entries.
#[derive(Debug, Clone)]
pub struct StaticCrawlerIpSource {
    pub name: &'static str,
    pub url: &'static str,
    pub description: &'static str,
    pub format: &'static str,
}

/// What a source record says, as character sequences.
pub struct SourceView {
    pub name: Seq<char>,
    pub url: Seq<char>,
    pub description: Seq<char>,
    pub format: Seq<char>,
}

impl View for CrawlerIpSource {
    type V = SourceView;

    open spec fn view(&self) -> SourceView {
        SourceView {
            name: self.name@,
            url: self.url@,
            description: self.description@,
            format: self.format@,
        }
    }
}

impl View for StaticCrawlerIpSource {
    type V = SourceView;

    open spec fn view(&self) -> SourceView {
        SourceView {
            name: self.name@,
            url: self.url@,
            description: self.description@,
            format: self.format@,
        }
    }
}

/// The record views of a list of sources.
pub open spec fn source_views(ss: Seq<CrawlerIpSource>) -> Seq<SourceView> {
    ss.map_values(|s: CrawlerIpSource| s@)
}

/// The record views of a list of static sources.
pub open spec fn static_source_views(ss: Seq<StaticCrawlerIpSource>) -> Seq<SourceView> {
    ss.map_values(|s: StaticCrawlerIpSource| s@)
}

/// The built-in crawler IP sources.
pub open spec fn spec_builtin_sources() -> Seq<SourceView> {
    seq![
        SourceView {
            name: "Googlebot IP Ranges"@,
            url: "https://developers.google.com/search/apis/ipranges/googlebot.json"@,
            description:
                "Google 製品で使用される一般的なクローラー（Googlebot など）。自動クロールでは常に robots.txt ルールに従います。"@,
            format: "JSON"@,
        },
        SourceView {
            name: "Googlebot Special Crawlers IP Ranges"@,
            url: "https://developers.google.com/static/search/apis/ipranges/special-crawlers.json"@,
            description:
                "クロール対象のサイトと Google プロダクトの間でクロール プロセスに関する合意がある Google プロダクトに対して特定の機能を実行するクローラー（AdsBot など）。こうしたクローラーは robots.txt ルールに従う場合と従わない場合があります。"@,
            format: "JSON"@,
        },
        SourceView {
            name: "Googlebot User Triggered Fetchers IP Ranges"@,
            url:
                "https://developers.google.com/static/search/apis/ipranges/user-triggered-fetchers.json"@,
            description: "エンドユーザーがフェッチをトリガーする、ツールおよびサービスの機能です。"@,
            format: "JSON"@,
        },
        SourceView {
            name: "Googlebot User Triggered Fetchers IP Ranges (Google)"@,
            url:
                "https://developers.google.com/static/search/apis/ipranges/user-triggered-fetchers-google.json"@,
            description: "エンドユーザーがフェッチをトリガーする、ツールおよびサービスの機能です。"@,
            format: "JSON"@,
        },
    ]
}

/// The default additional crawler sources, used when no file overrides
/// them.
pub open spec fn spec_default_additional_sources() -> Seq<SourceView> {
    seq![
        SourceView {
            name: "Bingbot IP Ranges"@,
            url: "https://www.bing.com/toolbox/bingbot.json"@,
            description: "Microsoft Bing search engine crawler IP ranges"@,
            format: "JSON"@,
        },
    ]
}

/// Every configured source: the built-ins, then the default additional
/// ones.
pub open spec fn spec_all_sources() -> Seq<SourceView> {
    spec_builtin_sources() + spec_default_additional_sources()
}

impl StaticCrawlerIpSource {
    /// The owned record of a static entry, field for field.
    pub fn to_source(&self) -> (r: CrawlerIpSource)
        ensures
            r@ == self@,
    {
        CrawlerIpSource {
            name: self.name.to_owned(),
            url: self.url.to_owned(),
            description: self.description.to_owned(),
            format: self.format.to_owned(),
        }
    }
}

impl CrawlerIpSource {
    /// A fresh record saying the same, field for field.
    pub fn duplicate(&self) -> (r: CrawlerIpSource)
        ensures
            r@ == self@,
    {
        CrawlerIpSource {
            name: self.name.as_str().to_owned(),
            url: self.url.as_str().to_owned(),
            description: self.description.as_str().to_owned(),
            format: self.format.as_str().to_owned(),
        }
    }
}

/// The built-in crawler IP source list.
pub fn builtin_crawler_sources() -> (r: Vec<StaticCrawlerIpSource>)
    ensures
        static_source_views(r@) == spec_builtin_sources(),
{
    let mut r: Vec<StaticCrawlerIpSource> = Vec::new();
    r.push(
        StaticCrawlerIpSource {
            name: "Googlebot IP Ranges",
            url: "https://developers.google.com/search/apis/ipranges/googlebot.json",
            description:
                "Google 製品で使用される一般的なクローラー（Googlebot など）。自動クロールでは常に robots.txt ルールに従います。",
            format: "JSON",
        },
    );
    r.push(
        StaticCrawlerIpSource {
            name: "Googlebot Special Crawlers IP Ranges",
            url: "https://developers.google.com/static/search/apis/ipranges/special-crawlers.json",
            description:
                "クロール対象のサイトと Google プロダクトの間でクロール プロセスに関する合意がある Google プロダクトに対して特定の機能を実行するクローラー（AdsBot など）。こうしたクローラーは robots.txt ルールに従う場合と従わない場合があります。",
            format: "JSON",
        },
    );
    r.push(
        StaticCrawlerIpSource {
            name: "Googlebot User Triggered Fetchers IP Ranges",
            url:
                "https://developers.google.com/static/search/apis/ipranges/user-triggered-fetchers.json",
            description: "エンドユーザーがフェッチをトリガーする、ツールおよびサービスの機能です。",
            format: "JSON",
        },
    );
    r.push(
        StaticCrawlerIpSource {
            name: "Googlebot User Triggered Fetchers IP Ranges (Google)",
            url:
                "https://developers.google.com/static/search/apis/ipranges/user-triggered-fetchers-google.json",
            description: "エンドユーザーがフェッチをトリガーする、ツールおよびサービスの機能です。",
            format: "JSON",
        },
    );
    proof {
        assert(static_source_views(r@) =~= spec_builtin_sources());
    }
    r
}

/// The default additional crawler IP source list.
pub fn default_additional_crawler_sources() -> (r: Vec<StaticCrawlerIpSource>)
    ensures
        static_source_views(r@) == spec_default_additional_sources(),
{
    let mut r: Vec<StaticCrawlerIpSource> = Vec::new();
    r.push(
        StaticCrawlerIpSource {
            name: "Bingbot IP Ranges",
            url: "https://www.bing.com/toolbox/bingbot.json",
            description: "Microsoft Bing search engine crawler IP ranges",
            format: "JSON",
        },
    );
    proof {
        assert(static_source_views(r@) =~= spec_default_additional_sources());
    }
    r
}

/// The built-in sources followed by the given additional ones: the
/// combined catalogue when a caller supplies entries of its own, read from
/// a file or anywhere else.
#[verifier::loop_isolation(false)]
pub fn sources_with_additional(additional: Vec<CrawlerIpSource>) -> (r: Vec<CrawlerIpSource>)
    ensures
        source_views(r@) == spec_builtin_sources() + source_views(additional@),
{
    let builtins = builtin_crawler_sources();
    let mut r: Vec<CrawlerIpSource> = Vec::new();
    let mut i: usize = 0;
    proof {
        assert(source_views(r@) =~= spec_builtin_sources().take(0));
    }
    while i < builtins.len()
        invariant
            i <= builtins@.len(),
            static_source_views(builtins@) == spec_builtin_sources(),
            source_views(r@) == spec_builtin_sources().take(i as int),
        decreases builtins@.len() - i,
    {
        let s = builtins[i].to_source();
        proof {
            assert(source_views(r@.push(s)) =~= source_views(r@).push(s@));
            assert(spec_builtin_sources().take(i + 1) =~= spec_builtin_sources().take(
                i as int,
            ).push(spec_builtin_sources()[i as int]));
            assert(s@ == static_source_views(builtins@)[i as int]);
        }
        r.push(s);
        i += 1;
    }
    proof {
        assert(spec_builtin_sources().take(builtins@.len() as int) =~= spec_builtin_sources());
    }
    let mut j: usize = 0;
    while j < additional.len()
        invariant
            j <= additional@.len(),
            source_views(r@) == spec_builtin_sources() + source_views(additional@).take(j as int),
        decreases additional@.len() - j,
    {
        let s = additional[j].duplicate();
        proof {
            assert(source_views(r@.push(s)) =~= source_views(r@).push(s@));
            assert(s@ == source_views(additional@)[j as int]);
            assert(spec_builtin_sources() + source_views(additional@).take(j + 1) =~= (
            spec_builtin_sources() + source_views(additional@).take(j as int)).push(
                source_views(additional@)[j as int],
            ));
        }
        r.push(s);
        j += 1;
    }
    proof {
        assert(source_views(additional@).take(additional@.len() as int) =~= source_views(
            additional@,
        ));
    }
    r
}

/// Get all configured crawler IP sources: the built-ins, then the default
/// additional ones.
#[verifier::loop_isolation(false)]
pub fn get_all_crawler_sources() -> (r: Vec<CrawlerIpSource>)
    ensures
        source_views(r@) == spec_all_sources(),
{
    let defaults = default_additional_crawler_sources();
    let mut additional: Vec<CrawlerIpSource> = Vec::new();
    let mut i: usize = 0;
    proof {
        assert(source_views(additional@) =~= spec_default_additional_sources().take(0));
    }
    while i < defaults.len()
        invariant
            i <= defaults@.len(),
            static_source_views(defaults@) == spec_default_additional_sources(),
            source_views(additional@) == spec_default_additional_sources().take(i as int),
        decreases defaults@.len() - i,
    {
        let s = defaults[i].to_source();
        proof {
            assert(source_views(additional@.push(s)) =~= source_views(additional@).push(s@));
            assert(spec_default_additional_sources().take(i + 1)
                =~= spec_default_additional_sources().take(i as int).push(
                spec_default_additional_sources()[i as int],
            ));
            assert(s@ == static_source_views(defaults@)[i as int]);
        }
        additional.push(s);
        i += 1;
    }
    proof {
        assert(spec_default_additional_sources().take(defaults@.len() as int)
            =~= spec_default_additional_sources());
    }
    sources_with_additional(additional)
}

/// The entries a sample configuration file shows.
pub open spec fn spec_sample_config_sources() -> Seq<SourceView> {
    seq![
        SourceView {
            name: "Example Bot"@,
            url: "https://example.com/bot-ips.json"@,
            description: "Example crawler IP ranges - customize this entry"@,
            format: "JSON"@,
        },
        SourceView {
            name: "Another Bot"@,
            url: "https://another-example.com/crawler-ranges.json"@,
            description: "Another example crawler - add more as needed"@,
            format: "JSON"@,
        },
    ]
}

/// The sample entries a generated configuration file holds, for a caller
/// that writes one out.
pub fn sample_config_sources() -> (r: Vec<CrawlerIpSource>)
    ensures
        source_views(r@) == spec_sample_config_sources(),
{
    let mut r: Vec<CrawlerIpSource> = Vec::new();
    r.push(
        CrawlerIpSource {
            name: "Example Bot".to_owned(),
            url: "https://example.com/bot-ips.json".to_owned(),
            description: "Example crawler IP ranges - customize this entry".to_owned(),
            format: "JSON".to_owned(),
        },
    );
    r.push(
        CrawlerIpSource {
            name: "Another Bot".to_owned(),
            url: "https://another-example.com/crawler-ranges.json".to_owned(),
            description: "Another example crawler - add more as needed".to_owned(),
            format: "JSON".to_owned(),
        },
    );
    proof {
        assert(source_views(r@) =~= spec_sample_config_sources());
    }
    r
}

/// What the result depends on when names are folded for the filter.
/// Relies on `str::to_lowercase`: the result depends on the characters
/// alone.
pub uninterp spec fn lower_of(s: Seq<char>) -> Seq<char>;

/// Relies on `str::to_lowercase` for case-insensitive name matching.
#[verifier::external_body]
fn to_lowercase(s: &str) -> (r: String)
    ensures
        r@ == lower_of(s@),
        s@.len() == 0 ==> r@.len() == 0,
{
    s.to_lowercase()
}

/// Whether a record's name matches a filter, both folded to lower case.
pub open spec fn name_matches(sv: SourceView, name_filter: Seq<char>) -> bool {
    contains_seq(lower_of(sv.name), lower_of(name_filter))
}

/// Get crawler sources by name: those whose lower-cased name contains the
/// lower-cased filter, in catalogue order.
#[verifier::loop_isolation(false)]
pub fn get_crawler_sources_by_name(name_filter: &str) -> (r: Vec<CrawlerIpSource>)
    ensures
        source_views(r@) == spec_all_sources().filter(
            |sv: SourceView| name_matches(sv, name_filter@),
        ),
{
    let all = get_all_crawler_sources();
    let filter_lower = to_lowercase(name_filter);
    let mut r: Vec<CrawlerIpSource> = Vec::new();
    let mut i: usize = 0;
    let ghost pred = |sv: SourceView| name_matches(sv, name_filter@);
    proof {
        reveal(Seq::filter);
        assert(spec_all_sources().take(0) =~= Seq::<SourceView>::empty());
        assert(source_views(r@) =~= spec_all_sources().take(0).filter(pred));
    }
    while i < all.len()
        invariant
            i <= all@.len(),
            source_views(all@) == spec_all_sources(),
            filter_lower@ == lower_of(name_filter@),
            source_views(r@) == spec_all_sources().take(i as int).filter(pred),
            pred == (|sv: SourceView| name_matches(sv, name_filter@)),
        decreases all@.len() - i,
    {
        let name_lower = to_lowercase(all[i].name.as_str());
        let keep = contains_str(name_lower.as_str(), filter_lower.as_str());
        proof {
            reveal(Seq::filter);
            assert(all@[i as int]@ == spec_all_sources()[i as int]);
            assert(spec_all_sources().take(i + 1).drop_last() =~= spec_all_sources().take(
                i as int,
            ));
            assert(spec_all_sources().take(i + 1).last() == spec_all_sources()[i as int]);
            assert(keep == pred(spec_all_sources()[i as int]));
        }
        if keep {
            let s = all[i].duplicate();
            proof {
                assert(source_views(r@.push(s)) =~= source_views(r@).push(s@));
            }
            r.push(s);
        }
        i += 1;
    }
    proof {
        assert(spec_all_sources().take(all@.len() as int) =~= spec_all_sources());
    }
    r
}

} // verus!
