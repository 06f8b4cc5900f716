//! Documents as one HTML page.

use sha2::Digest;
use swift_design::document_render::{
    page_markup, page_scope, page_script, render_document, render_document_with, render_page,
    script_markup, PageParts, RenderOptions, Scripts,
};
use swift_design::encoding::base64_encode;
use swift_design::model::{Colors, Document, Fonts, Page, Paper, Theme};

fn theme() -> Theme {
    Theme {
        name: "report".to_owned(),
        colors: Colors {
            background: "#ffffff".to_owned(),
            text: "#1a1d21".to_owned(),
            accent: "#2f6fdd".to_owned(),
            muted: "#6b7480".to_owned(),
        },
        fonts: Fonts {
            heading: "Inter".to_owned(),
            body: "Inter".to_owned(),
            mono: "JetBrains Mono".to_owned(),
        },
    }
}

fn page(html: &str, css: &str, notes: &str) -> Page {
    Page {
        html: html.to_owned(),
        css: Some(css.to_owned()),
        notes: Some(notes.to_owned()),
    }
}

fn sample_document() -> Document {
    Document {
        title: "Swift Design Quarterly Report".to_owned(),
        theme: theme(),
        paper: Paper::A4,
        pages: vec![
            page(
                "<div class='p1-cover'><p>Quarterly report</p><h1>Swift Design</h1></div>",
                ".p1-cover{padding:80px}",
                "The cover.",
            ),
            page(
                "<h2>Summary</h2><p>The harness asks a few questions, then writes.</p>\
                 <h3>What changed</h3><ul><li>Link capture reads a website into the run.</li>\
                 <li>Documents export as Word files.</li><li>Edits run per page.</li></ul>\
                 <h3>What is next</h3><p>More kinds.</p>",
                "h2{margin:0}",
                "The summary.",
            ),
            page(
                "<h2>Numbers</h2><table><tr><th>Month</th><th>Runs</th><th>Edits</th></tr>\
                 <tr><td>January</td><td>40</td><td>90</td></tr>\
                 <tr><td>February</td><td>55</td><td>120</td></tr>\
                 <tr><td>March</td><td>70</td><td>180</td></tr>\
                 <tr><td>April</td><td>90</td><td>240</td></tr></table>\
                 <p>Edits count every saved change.</p>",
                "h2{margin:0}",
                "The numbers.",
            ),
        ],
        outline: Vec::new(),
    }
}

const SCRIPTS: Scripts<'static> = Scripts {
    fit: "swiftDesignFit();",
    layout: "new ResizeObserver();",
    navigation: "navigate();",
    editing: "post('swift-design-html');",
    audit: "report('swift-design-findings');",
};

/// The hash of the script between the script tags of a page.
fn script_hash_of(html: &str) -> String {
    let start = html.find("<script>").unwrap() + "<script>".len();
    let end = html.find("</script>").unwrap();
    base64_encode(&sha2::Sha256::digest(&html.as_bytes()[start..end]))
}

/// Each page's CSS behind the scope of its page.
fn scoped(document: &Document) -> Vec<Option<String>> {
    document
        .pages
        .iter()
        .enumerate()
        .map(|(index, page)| {
            page.css
                .as_ref()
                .map(|css| format!("{} {css}", page_scope(index)))
        })
        .collect()
}

fn rendered(document: &Document, options: &RenderOptions) -> String {
    let styles = scoped(document);
    let viewport = document.paper.viewport();
    let print = format!(
        "@page {{ size: {}px {}px; margin: 0; }}\n.page {{ break-after: page; }}\n",
        viewport.width, viewport.height
    );
    let parts = PageParts {
        scripts: &SCRIPTS,
        fonts: "",
        stylesheet: "",
        print_stylesheet: &print,
        scoped_styles: &styles,
    };
    render_document_with(document, options, &parts)
}

fn on_screen(document: &Document, is_editable: bool) -> String {
    rendered(
        document,
        &RenderOptions {
            is_editable,
            ..RenderOptions::default()
        },
    )
}

#[test]
fn renders_one_section_per_page_with_the_html_as_written() {
    let document = sample_document();
    let html = on_screen(&document, false);
    assert_eq!(
        html.matches("<div class=\"page-root\" data-swift-design-root>")
            .count(),
        document.pages.len()
    );
    assert!(html.starts_with("<!doctype html>"));
    assert!(html.contains("id=\"page-1\""));
    assert!(html.contains("<h1>Swift Design</h1>"));
    assert!(html.contains("<main class=\"design document\" data-swift-design-width=\"794\" data-swift-design-height=\"1123\">"));
}

#[test]
fn letter_paper_sets_the_letter_canvas() {
    let mut document = sample_document();
    document.paper = Paper::Letter;
    let html = on_screen(&document, false);
    assert!(html.contains("data-swift-design-width=\"816\" data-swift-design-height=\"1056\""));
}

/// The selector of each page, and that its styles reach the page behind it;
/// how a rule is scoped is up to the caller.
#[test]
fn page_css_is_scoped_to_its_page() {
    let html = on_screen(&sample_document(), false);
    assert!(html.contains("[data-swift-design-screen=\"0\"] .p1-cover{"));
    assert!(html.contains("[data-swift-design-screen=\"2\"] h2{"));
    assert!(!html.contains("\nh2{"));
}

#[test]
fn the_csp_hash_matches_the_emitted_script() {
    let html = on_screen(&sample_document(), true);
    let hash = script_hash_of(&html);
    assert!(html.contains(&format!("script-src 'sha256-{hash}'")));
    assert!(html.contains("swift-design-html"));
    assert!(html.contains("connect-src 'none'"));
    assert!(!on_screen(&sample_document(), false).contains("swift-design-html"));
}

#[test]
fn a_single_page_renders_with_its_real_index() {
    let html = rendered(
        &sample_document(),
        &RenderOptions {
            only_page: Some(2),
            ..RenderOptions::default()
        },
    );
    assert_eq!(
        html.matches("<section class=\"page\" data-swift-design-screen=\"")
            .count(),
        1
    );
    assert!(html.contains("<section class=\"page\" data-swift-design-screen=\"2\">"));
    assert!(html.contains("id=\"page-3\""));
    assert!(!html.contains("[data-swift-design-screen=\"0\"]"));
}

#[test]
fn an_auditing_page_carries_the_audit_script_and_a_matching_hash() {
    let html = rendered(
        &sample_document(),
        &RenderOptions {
            is_auditing: true,
            asset_origin: Some("http://127.0.0.1:3000".to_owned()),
            ..RenderOptions::default()
        },
    );
    assert!(html.contains("swift-design-findings"));
    assert!(html.contains("img-src 'self' data: http://127.0.0.1:3000;"));
    let hash = script_hash_of(&html);
    assert!(html.contains(&format!("script-src 'sha256-{hash}'")));
    assert!(!on_screen(&sample_document(), false).contains("swift-design-findings"));
}

/// The print stylesheet, which the caller gives, reaches a print alone; the
/// script of a print is the fit alone.
#[test]
fn print_mode_emits_page_rules_and_the_fit_script_only() {
    let document = sample_document();
    let html = rendered(
        &document,
        &RenderOptions {
            is_print: true,
            ..RenderOptions::default()
        },
    );
    assert!(html.contains("@page { size: 794px 1123px; margin: 0; }"));
    assert!(html.contains("break-after: page"));
    assert!(html.contains("swiftDesignFit"));
    assert!(!html.contains("ResizeObserver"));
    assert_eq!(
        html.matches("data-swift-design-root>").count(),
        document.pages.len()
    );
    assert!(!on_screen(&document, false).contains("@page"));
}

#[test]
fn escapes_the_document_title() {
    let mut document = sample_document();
    document.title = "<script>alert(1)</script>".to_owned();
    let html = on_screen(&document, false);
    assert!(html.contains("<title>&lt;script&gt;alert(1)&lt;/script&gt;</title>"));
}

#[test]
fn a_page_without_styles_adds_none() {
    let document = sample_document();
    let none: Vec<Option<String>> = document.pages.iter().map(|_| None).collect();
    let (sections, styles) = page_markup(&document, None, &none);
    assert_eq!(styles, "");
    assert_eq!(sections.matches("page-frame").count(), 3);
    let (sections, _) = page_markup(&document, Some(9), &none);
    assert_eq!(sections, "");
    let mut plain = sample_document();
    plain.pages[1].css = None;
    let given: Vec<Option<String>> = vec![
        Some("a".to_owned()),
        Some("b".to_owned()),
        Some("c".to_owned()),
    ];
    assert_eq!(page_markup(&plain, None, &given).1, "a\nc\n");
    assert_eq!(page_markup(&plain, Some(1), &given).1, "");
    assert_eq!(page_markup(&plain, Some(2), &given).1, "c\n");
    assert_eq!(
        render_page(&document.pages[0], 0),
        format!(
            "<div class=\"page-frame\" id=\"page-1\" data-swift-design-frame>\n<section class=\"page\" data-swift-design-screen=\"0\">\n<div class=\"page-root\" data-swift-design-root>{}</div>\n</section>\n</div>\n",
            document.pages[0].html
        )
    );
}

#[test]
fn an_origin_cannot_leave_its_policy() {
    let html = rendered(
        &sample_document(),
        &RenderOptions {
            asset_origin: Some("http://x; script-src *\"".to_owned()),
            ..RenderOptions::default()
        },
    );
    assert!(html.contains("img-src 'self' data: http://xscript-src*; connect-src"));
}

#[test]
fn a_plain_render_is_one_with_the_default_options() {
    let document = sample_document();
    let styles = scoped(&document);
    let parts = PageParts {
        scripts: &SCRIPTS,
        fonts: "<link>\n",
        stylesheet: "STYLE\n",
        print_stylesheet: "PRINT\n",
        scoped_styles: &styles,
    };
    let html = render_document(&document, false, &parts);
    assert_eq!(
        html,
        render_document_with(&document, &RenderOptions::default(), &parts)
    );
    assert!(html.contains("<link>\n<style>\nSTYLE\n["));
    assert!(html.ends_with(
        "</main>\n<script>swiftDesignFit();new ResizeObserver();navigate();</script>\n</body>\n</html>\n"
    ));
    assert!(!html.contains("PRINT"));
}

#[test]
fn a_script_is_allowed_by_its_hash() {
    assert_eq!(
        script_markup("hello world"),
        (
            "'sha256-uU0nuZNNPgilLlLX2n2r+sSE7+N6U4DukIj3rOLvzek='".to_owned(),
            "<script>hello world</script>\n".to_owned(),
        )
    );
}

#[test]
fn the_options_choose_the_scripts() {
    let both = RenderOptions {
        is_editable: true,
        is_auditing: true,
        ..RenderOptions::default()
    };
    assert_eq!(
        page_script(&both, &SCRIPTS),
        "swiftDesignFit();new ResizeObserver();navigate();\
         post('swift-design-html');report('swift-design-findings');"
    );
    let print = RenderOptions {
        is_print: true,
        ..both
    };
    assert_eq!(page_script(&print, &SCRIPTS), "swiftDesignFit();");
}
