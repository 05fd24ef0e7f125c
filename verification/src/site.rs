//! The files of the site.

use crate::assets;
use crate::assets::{render_bitcoin_theme_css, render_css, render_js};
use crate::config::{Config, ConfigModel};
use crate::feed;
use crate::feed::{Feed, FeedModel};
use crate::page;
use crate::page::render_html;
use crate::round_trip;
use crate::text;
use crate::text::{owned, trim_matches, Class};
use vstd::prelude::*;

verus! {

/// A file with its name and what it holds.
#[derive(Debug)]
pub struct SiteFile {
    pub name: String,
    pub body: String,
}

/// The names and contents of files.
pub open spec fn file_models(v: Seq<SiteFile>) -> Seq<(Seq<char>, Seq<char>)> {
    v.map_values(|f: SiteFile| (f.name@, f.body@))
}

/// The files that show a feed: the page, its styles and its script.
pub open spec fn page_files(page: Seq<char>) -> Seq<(Seq<char>, Seq<char>)> {
    seq![
        ("index.html"@, page),
        ("theme-bitcoin.css"@, assets::BITCOIN_THEME_CSS@),
        ("btc_foss.css"@, assets::SITE_CSS@),
        ("btc_foss.js"@, assets::SITE_JS@),
    ]
}

/// The feed file.
pub open spec fn feed_file(f: FeedModel) -> (Seq<char>, Seq<char>) {
    ("feed.json"@, feed::feed_text(f))
}

/// The files of the site. The feed file stands among them only where there is none yet.
pub open spec fn site_files(c: ConfigModel, f: FeedModel, has_feed: bool) -> Seq<
    (Seq<char>, Seq<char>),
> {
    let files = page_files(page::page_html(c, f));
    if has_feed {
        files
    } else {
        files.push(feed_file(f))
    }
}

fn push_file(files: &mut Vec<SiteFile>, name: &str, body: &str)
    ensures
        file_models(final(files)@) == file_models(old(files)@).push((name@, body@)),
{
    files.push(SiteFile { name: owned(name), body: owned(body) });
    assert(file_models(files@) =~= file_models(old(files)@).push((name@, body@)));
}

/// The files that show a feed.
fn list_page_files(page: &str) -> (out: Vec<SiteFile>)
    ensures
        file_models(out@) == page_files(page@),
{
    let mut out: Vec<SiteFile> = Vec::new();
    push_file(&mut out, "index.html", page);
    push_file(&mut out, "theme-bitcoin.css", render_bitcoin_theme_css());
    push_file(&mut out, "btc_foss.css", render_css());
    push_file(&mut out, "btc_foss.js", render_js());
    assert(file_models(out@) =~= page_files(page@));
    out
}

/// The files of the site. Where the directory has a feed file, it is left as it is.
pub fn render_cmd(config: &Config, feed: &Feed, has_feed: bool) -> (out: Vec<SiteFile>)
    ensures
        file_models(out@) == site_files(config@, feed@, has_feed),
{
    let page = render_html(config, feed);
    let mut out = list_page_files(page.as_str());
    if !has_feed {
        push_file(&mut out, "feed.json", feed.to_json().as_str());
    }
    out
}

/// The directory below the site that stands for its base path; none where the base path is
/// the root.
pub open spec fn base_dir(c: ConfigModel) -> Option<Seq<char>> {
    let name = text::trim_both(c.base_path, Class::Only('/'));
    if name.len() == 0 {
        None
    } else {
        Some(name)
    }
}

/// The directory that shows the site under its base path, and its files. The page is the
/// given one.
pub fn write_local_preview_files(config: &Config, feed: &Feed, html: &str) -> (out: Option<
    (String, Vec<SiteFile>),
>)
    ensures
        match out {
            Some((dir, files)) => base_dir(config@) == Some(dir@) && file_models(files@)
                == page_files(html@).push(feed_file(feed@)),
            None => base_dir(config@) is None,
        },
{
    let dir = trim_matches(config.base_path.as_str(), Class::Only('/'));
    if dir.as_str().is_empty() {
        return None;
    }
    let mut files = list_page_files(html);
    push_file(&mut files, "feed.json", feed.to_json().as_str());
    Some((dir, files))
}

// ---------------------------------------------------------------------------
// Laws
// ---------------------------------------------------------------------------

/// The page, its two styles and its script have their names.
pub proof fn lemma_page_files(page: Seq<char>)
    ensures
        page_files(page).len() == 4,
        page_files(page)[0] == ("index.html"@, page),
        page_files(page)[1] == ("theme-bitcoin.css"@, assets::BITCOIN_THEME_CSS@),
        page_files(page)[2] == ("btc_foss.css"@, assets::SITE_CSS@),
        page_files(page)[3] == ("btc_foss.js"@, assets::SITE_JS@),
{
}

/// The site has the files of the page, and the feed where there is none yet. The feed file
/// reads back as the feed that the page shows.
pub proof fn lemma_site_files(c: ConfigModel, f: FeedModel)
    ensures
        site_files(c, f, true) == page_files(page::page_html(c, f)),
        site_files(c, f, false).len() == 5,
        site_files(c, f, false).take(4) == site_files(c, f, true),
        site_files(c, f, false)[4].0 == "feed.json"@,
        feed::read_feed(site_files(c, f, false)[4].1) == Ok::<FeedModel, Seq<char>>(f),
{
    let page = page::page_html(c, f);
    let files = page_files(page);
    lemma_page_files(page);
    round_trip::lemma_feed_round_trip(f);
    lemma_front(files, feed_file(f));
}

proof fn lemma_front(files: Seq<(Seq<char>, Seq<char>)>, last: (Seq<char>, Seq<char>))
    ensures
        files.push(last).take(files.len() as int) == files,
        files.push(last)[files.len() as int] == last,
{
    assert(files.push(last).take(files.len() as int) =~= files);
}

/// The files of the preview are those of a site without a feed.
pub proof fn lemma_preview_files(c: ConfigModel, f: FeedModel)
    ensures
        page_files(page::page_html(c, f)).push(feed_file(f)) == site_files(c, f, false),
{
}

/// The directory of a base path is what stands between its slashes, and there is none where
/// it has nothing but slashes.
pub proof fn lemma_base_dir(c: ConfigModel, name: Seq<char>)
    requires
        c.base_path == seq!['/'] + name + seq!['/'],
        name.len() > 0,
        name[0] != '/' && name.last() != '/',
    ensures
        base_dir(c) == Some(name),
{
    text::lemma_trim_both(seq!['/'], name, seq!['/'], Class::Only('/'));
}

/// A base path of slashes has no directory.
pub proof fn lemma_no_base_dir(c: ConfigModel)
    requires
        forall|i: int| 0 <= i < c.base_path.len() ==> #[trigger] c.base_path[i] == '/',
    ensures
        base_dir(c) is None,
{
    let none = Seq::<char>::empty();
    text::lemma_trim_both(c.base_path, none, none, Class::Only('/'));
    assert(c.base_path + none + none =~= c.base_path);
}

} // verus!
