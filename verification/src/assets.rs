//! The fixed parts of the site: its styles, its script and its logo.

use vstd::prelude::*;

verus! {

/// The logo.
pub const BITCOIN_LOGO: &'static str = r#"<img class="btc-logo" src="https://upload.wikimedia.org/wikipedia/commons/4/46/Bitcoin.svg" alt="Bitcoin">"#;

/// The logo as an element of a page.
pub fn bitcoin_logo_svg() -> (out: &'static str)
    ensures
        out@ == BITCOIN_LOGO@,
{
    BITCOIN_LOGO
}

/// The colours of the site.
pub const BITCOIN_THEME_CSS: &'static str = r#"html[data-theme="bitcoin"],
html[data-theme="bitcoin"]::backdrop {
  color-scheme: dark;
  --bg: #0c0f14;
  --bg-deep: #05070a;
  --accent-bg: #141017;
  --panel-bg: rgba(18, 22, 29, 0.9);
  --panel-bg-strong: rgba(29, 25, 24, 0.95);
  --text: #f4e7cf;
  --text-light: #c9a875;
  --text-muted: #8b7558;
  --border: #7f5a24;
  --border-soft: rgba(247, 147, 26, 0.28);
  --accent: #f7931a;
  --accent-hover: #ffbf5f;
  --accent-text: #120900;
  --code: #ffd28a;
  --preformatted: #d8b06f;
  --marked: #f7931a;
  --disabled: #352717;
  --selection-text: #fff2db;
  --selection-bg: rgba(247, 147, 26, 0.32);
  --measure: 78rem;
  --page-gutter: clamp(0.75rem, 4vw, 4rem);
  --body-bg-start: #121922;
  --body-bg-mid: #0c0f14;
  --body-bg-end: #05070a;
  --body-ambient-top: rgba(247, 147, 26, 0.11);
  --body-ambient-bottom: rgba(55, 132, 122, 0.08);
  --body-grain-line: rgba(247, 147, 26, 0.014);
  --scanline-dark: rgba(0, 0, 0, 0.2);
  --scanline-bright: rgba(247, 147, 26, 0.026);
  --scanline-sweep-a: rgba(247, 147, 26, 0.016);
  --scanline-sweep-b: rgba(55, 132, 122, 0.008);
  --scanline-sweep-c: rgba(0, 0, 0, 0.1);
  --header-veil-top: rgba(247, 147, 26, 0.1);
  --header-veil-bottom: rgba(55, 132, 122, 0.025);
  --header-shadow: rgba(247, 147, 26, 0.09);
  --header-divider-soft: rgba(247, 147, 26, 0.22);
  --header-divider-core: rgba(55, 132, 122, 0.2);
  --main-vignette: rgba(247, 147, 26, 0.08);
  --footer-divider: rgba(247, 147, 26, 0.5);
  --heading-color: #ffd08a;
  --link-decoration: rgba(247, 147, 26, 0.68);
  --link-hover-shadow: 0 0 0.85rem rgba(247, 147, 26, 0.34);
  --link-focus-inner: 0 0 0 2px rgba(55, 132, 122, 0.32);
  --link-focus-outer: 0 0 0.95rem rgba(247, 147, 26, 0.48);
  --button-top: #ffbd59;
  --button-bottom: #f7931a;
  --button-hover-shadow: 0 0 1.15rem rgba(247, 147, 26, 0.42);
  --button-focus-shadow: 0 0 0.95rem rgba(55, 132, 122, 0.45);
  --select-overlay-top: rgba(247, 147, 26, 0.08);
  --select-overlay-bottom: rgba(55, 132, 122, 0.018);
  --select-surface: rgba(12, 15, 20, 0.68);
  --select-border: rgba(247, 147, 26, 0.64);
  --select-focus: 0 0 0 2px rgba(55, 132, 122, 0.22),
    0 0 0.7rem rgba(247, 147, 26, 0.4);
  --link-glow: 0 0 0.16rem rgba(255, 180, 80, 0.54),
    0 0 0.38rem rgba(247, 147, 26, 0.34),
    0 0 0.62rem rgba(55, 132, 122, 0.2);
  --link-glow-strong: 0 0 0.22rem rgba(255, 205, 115, 0.82),
    0 0 0.56rem rgba(247, 147, 26, 0.58),
    0 0 1.05rem rgba(55, 132, 122, 0.28);
  --crt-glow: 0 0 0.16rem rgba(247, 147, 26, 0.22),
    0 0 0.75rem rgba(55, 132, 122, 0.09);
  --crt-glow-strong: 0 0 0.22rem rgba(255, 190, 98, 0.62),
    0 0 1.05rem rgba(247, 147, 26, 0.28);
  --crt-panel-shadow: inset 0 0 0 1px rgba(247, 147, 26, 0.12),
    0 0 1.1rem rgba(55, 132, 122, 0.08);
  --grain-strength: 0.066;
  --grain-size: 112px;
  --grain-animation-speed: 2.8s;
  --grain-contrast: 310%;
  --snow-layers: none;
  --snow-size: auto;
  --snow-position: 0 0;
  --snow-position-end: 0 0;
  --snow-opacity: 0;
  --snow-animation: none;

  --btc-profit: #63d39a;
  --btc-cyan: #3a9e92;
  --btc-warning: #ffbf5f;
  --btc-danger: #d86b5f;
}
"#;

/// The style sheet with the colours of the site.
pub fn render_bitcoin_theme_css() -> (out: &'static str)
    ensures
        out@ == BITCOIN_THEME_CSS@,
{
    BITCOIN_THEME_CSS
}

/// The layout of the site.
pub const SITE_CSS: &'static str = r#":root {
  --space-sm: 0.75rem;
  --space-md: 1rem;
  --space-lg: 1.5rem;
  --standard-border-radius: 0.375rem;
}
* { box-sizing: border-box; }
html { background: var(--bg-deep); color: var(--text); }
body {
  margin: 0;
  min-height: 100vh;
  color: var(--text);
  background:
    radial-gradient(circle at 20% 0%, var(--body-ambient-top), transparent 28rem),
    radial-gradient(circle at 80% 100%, var(--body-ambient-bottom), transparent 28rem),
    linear-gradient(180deg, var(--body-bg-start), var(--body-bg-mid) 45%, var(--body-bg-end));
  font: 16px/1.5 system-ui, -apple-system, BlinkMacSystemFont, "Segoe UI", sans-serif;
}
a { color: var(--accent-hover); text-decoration-color: var(--link-decoration); }
a:hover { color: var(--accent); text-shadow: var(--link-hover-shadow); }
header,
main,
footer {
  width: min(var(--measure), calc(100% - (2 * var(--page-gutter))));
  margin-inline: auto;
}
header {
  display: flex;
  justify-content: space-between;
  gap: var(--space-md);
  align-items: end;
  padding: var(--space-lg) 0 var(--space-sm);
  border-bottom: 1px solid var(--header-divider-soft);
}
header h1 {
  margin: 0;
  color: var(--heading-color);
  font-size: clamp(1rem, 2vw, 1.25rem);
}
header p,
footer p { margin: 0; }
header p {
  display: flex;
  flex-wrap: wrap;
  gap: var(--space-md);
}
footer {
  padding: var(--space-lg) 0;
  color: var(--text-light);
  border-top: 1px solid var(--footer-divider);
}
select {
  color: var(--text);
  background: var(--select-surface);
  border: 1px solid var(--select-border);
  border-radius: var(--standard-border-radius);
  padding: 0.35rem 0.45rem;
}
details {
  background: var(--panel-bg);
  border: 1px solid var(--border-soft);
  border-radius: var(--standard-border-radius);
  padding: 0.45rem 0.6rem;
  box-shadow: var(--crt-panel-shadow);
}
summary { cursor: pointer; }
.btc-page { padding-top: var(--space-lg); }
.btc-page h1 {
  display: flex;
  align-items: center;
  gap: 0.55rem;
}
.btc-logo {
  flex: 0 0 auto;
  inline-size: 1.85rem;
  block-size: 1.85rem;
  border: 0;
  border-radius: 50%;
  filter: drop-shadow(0 0 0.65rem rgba(247, 147, 26, 0.42));
  opacity: 1;
}
.btc-muted { color: var(--text-light); font-size: 0.92rem; }
.btc-stats { display: grid; grid-template-columns: repeat(auto-fit, minmax(7rem, 1fr)); gap: 0.5rem; padding: 0; border: 0; background: transparent; box-shadow: none; }
.btc-stats div { border: 1px solid var(--border); border-radius: var(--standard-border-radius); padding: 0.45rem 0.55rem; background: linear-gradient(180deg, rgba(247, 147, 26, 0.07), rgba(247, 147, 26, 0.02)), var(--panel-bg); }
.btc-stats strong { display: block; color: var(--accent-hover); font-size: 1.2rem; line-height: 1; }
.btc-stats span { color: var(--text-light); font-size: 0.78rem; text-transform: uppercase; }
.btc-filters { display: grid; grid-template-columns: repeat(3, minmax(0, 1fr)) auto; gap: 0.6rem; align-items: end; margin: var(--space-lg) 0; }
.btc-filters label { font-size: 0.78rem; text-transform: uppercase; }
.btc-filters select { width: 100%; margin: 0.2rem 0 0; }
.btc-reset { align-self: center; white-space: nowrap; }
.btc-timeline { position: relative; display: grid; gap: 0.35rem; }
.btc-thread { margin: 0; border-color: var(--border-soft); }
.btc-thread[hidden] { display: none; }
.btc-thread summary { display: grid; grid-template-columns: 1.8rem minmax(10rem, 1fr) minmax(9rem, 0.65fr) 6.2rem 7.8rem; gap: 0.55rem; align-items: center; min-block-size: 2.25rem; word-break: normal; }
.btc-thread summary::marker { color: var(--accent-hover); }
.btc-row-title { display: inline-flex; align-items: center; gap: 0.3rem; min-width: 0; overflow: hidden; white-space: nowrap; color: var(--heading-color); }
.btc-row-title > :is(a, .btc-row-title-text):first-child { min-width: 0; overflow: hidden; text-overflow: ellipsis; white-space: nowrap; }
.btc-row-repo { min-width: 0; overflow: hidden; text-overflow: ellipsis; white-space: nowrap; color: var(--text-light); font-size: 0.78rem; font-weight: normal; }
.btc-row-date { color: var(--text-light); font-size: 0.78rem; font-weight: normal; font-variant-numeric: tabular-nums; text-align: end; white-space: nowrap; }
.btc-row-kind { display: inline-flex; justify-content: center; inline-size: 100%; color: var(--text-light); border: 1px solid var(--border-soft); border-radius: var(--standard-border-radius); padding: 0.03rem 0.32rem; font-size: 0.76rem; font-weight: normal; white-space: nowrap; text-transform: uppercase; }
.btc-icon { display: inline-grid; place-items: center; width: 1.35rem; height: 1.35rem; border: 1px solid var(--accent); border-radius: 50%; color: var(--accent-text); background: var(--accent); text-shadow: none; box-shadow: 0 0 0.65rem rgba(247, 147, 26, 0.28); }
.btc-thread-detail { margin-top: 0.45rem; padding-top: 0.45rem; border-top: 1px solid var(--border-soft); }
.btc-thread ul { margin: 0.45rem 0 0 1.75rem; padding-left: 0; list-style: none; }
.btc-thread li { display: grid; grid-template-columns: 1.25rem auto auto minmax(0, 1fr) auto; gap: 0.38rem; align-items: center; margin: 0.28rem 0; }
.btc-detail-icon { display: inline-grid; place-items: center; width: 1rem; height: 1rem; color: var(--accent-hover); }
.btc-thread time, .btc-kind, .btc-status { color: var(--text-light); font-size: 0.78rem; }
.btc-kind, .btc-status { border: 1px solid var(--border-soft); border-radius: var(--standard-border-radius); padding: 0.03rem 0.28rem; }
@media only screen and (max-width: 720px) {
  .btc-filters { grid-template-columns: 1fr; }
  .btc-thread summary { grid-template-columns: 1.5rem minmax(0, 1fr) auto; gap: 0.4rem; }
  .btc-row-repo { grid-column: 2; }
  .btc-row-kind { display: none; }
}
"#;

/// The style sheet with the layout of the site.
pub fn render_css() -> (out: &'static str)
    ensures
        out@ == SITE_CSS@,
{
    SITE_CSS
}

/// The script that filters the timeline.
pub const SITE_JS: &'static str = r#"(function () {
  const form = document.getElementById("btc-filters");
  const items = Array.from(document.querySelectorAll(".btc-thread"));
  const defaults = new Map();
  for (const item of items) {
    const summary = item.querySelector("summary");
    defaults.set(item, {
      icon: summary.querySelector(".btc-icon").textContent,
      title: summary.querySelector(".btc-row-title").innerHTML,
      kind: summary.querySelector(".btc-row-kind").textContent,
    });
  }
  if (!form) return;
  function typeLabel(type, count) {
    const labels = {
      pull_request: ["pull request", "pull requests"],
      review: ["review", "reviews"],
      commit: ["commit", "commits"],
      comment: ["comment", "comments"],
      issue: ["issue", "issues"],
    }[type] || [type.replaceAll("_", " "), `${type.replaceAll("_", " ")}s`];
    return count === 1 ? labels[0] : labels[1];
  }
  function setSummary(item, type, rows) {
    const summary = item.querySelector("summary");
    const icon = summary.querySelector(".btc-icon");
    const title = summary.querySelector(".btc-row-title");
    const kind = summary.querySelector(".btc-row-kind");
    if (!type) {
      const original = defaults.get(item);
      icon.textContent = original.icon;
      title.innerHTML = original.title;
      kind.textContent = original.kind;
      return;
    }
    icon.textContent = rows[0].querySelector(".btc-detail-icon").textContent;
    kind.textContent = type.replaceAll("_", " ");
    title.replaceChildren();
    if (rows.length === 1) {
      const link = document.createElement("a");
      link.href = rows[0].dataset.url;
      link.textContent = rows[0].dataset.title;
      title.append(link);
    } else {
      const label = document.createElement("span");
      label.className = "btc-row-title-text";
      label.textContent = `${rows.length} ${typeLabel(type, rows.length)}`;
      title.append(label);
    }
  }
  function apply() {
    const data = new FormData(form);
    const repo = data.get("repo");
    const type = data.get("type");
    const year = data.get("year");
    for (const item of items) {
      const detailRows = Array.from(item.querySelectorAll("[data-type]"));
      const matchingRows = type ? detailRows.filter((row) => row.dataset.type === type) : detailRows;
      const ok = (!repo || item.dataset.repo === repo) &&
        (!type || matchingRows.length > 0) &&
        (!year || item.dataset.year === year);
      item.hidden = !ok;
      for (const row of detailRows) {
        row.hidden = Boolean(type && row.dataset.type !== type);
      }
      if (ok) {
        setSummary(item, type, matchingRows);
      }
    }
  }
  form.addEventListener("change", apply);
})();
"#;

/// The script that filters the timeline.
pub fn render_js() -> (out: &'static str)
    ensures
        out@ == SITE_JS@,
{
    SITE_JS
}

} // verus!
