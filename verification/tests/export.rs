//! Exports: attachments, fonts, uploads, images in archives.

use std::io::{Cursor, Read};

use swift_design::email_html::EmailHtmlFile;
use swift_design::encoding::base64_encode;
use swift_design::export::{
    attachment_disposition, data_uri, email_index, export_source, font_urls, google_fonts_link, inline_font_urls,
    inline_google_fonts, pack_ad_images, pack_email_html_files, pack_email_images, pack_frame_images,
    pack_sheet_images, replace_font_link, ExportRefusal, FontLink, FONT_LINK_PREFIX,
};
use swift_design::model::{
    Colors, Design, Document, Email, EmailFormat, Fonts, Mailing, Page, Paper, Screen, Theme,
    Viewport,
};
use swift_design::offline::{FONT_HOST, STYLE_HOST};
use swift_design::uploads::{
    collect_upload_names, inline_uploaded_email_images, inline_uploaded_images,
    inline_uploaded_page_images, is_stored_name, replace_upload_references, unit_upload_names,
    upload_references, DataUri,
};

const STYLESHEET_URL: &str =
    "https://fonts.googleapis.com/css2?family=Inter:wght@400;500;600;700&display=swap";
const FONT_CSS: &str = "@font-face { font-family: 'Inter'; font-style: normal; font-weight: 400; src: url(https://fonts.gstatic.com/s/inter/a.woff2) format('woff2'); }\n@font-face { font-family: 'Inter'; font-weight: 700; src: url(https://fonts.gstatic.com/s/inter/b.woff2) format('woff2'); }";

fn theme() -> Theme {
    Theme {
        name: "plain".to_owned(),
        colors: Colors {
            background: "#ffffff".to_owned(),
            text: "#111111".to_owned(),
            accent: "#0284c7".to_owned(),
            muted: "#64748b".to_owned(),
        },
        fonts: Fonts {
            heading: "Inter".to_owned(),
            body: "Inter".to_owned(),
            mono: "Inter".to_owned(),
        },
    }
}

fn sample_design() -> Design {
    Design {
        title: "Swift Design Overview".to_owned(),
        theme: theme(),
        viewport: Viewport {
            width: 1440,
            height: 900,
        },
        transition: None,
        screens: vec![Screen {
            name: "Home".to_owned(),
            html: "<h1>Swift Design</h1>".to_owned(),
            css: None,
            notes: None,
        }],
        outline: Vec::new(),
    }
}

/// Reads each font as its own file name.
fn fake_fonts(css: &str) -> Vec<Vec<u8>> {
    font_urls(css)
        .iter()
        .map(|url| {
            let name = url.rsplit('/').next().unwrap_or_default();
            format!("FONT:{name}").into_bytes()
        })
        .collect()
}

fn font_uri(name: &str) -> String {
    format!(
        "data:font/woff2;base64,{}",
        base64_encode(format!("FONT:{name}").as_bytes())
    )
}

fn chart_uri() -> Vec<DataUri> {
    vec![DataUri {
        name: "chart.png".to_owned(),
        uri: data_uri("image/png", b"PNGDATA"),
    }]
}

/// A rendered page, as far as its fonts go.
fn page_with_fonts() -> String {
    format!(
        "<head>\n<meta http-equiv=\"Content-Security-Policy\" content=\"style-src 'unsafe-inline' https://fonts.googleapis.com; font-src 'self' https://fonts.gstatic.com;\">\n<link rel=\"preconnect\" href=\"https://fonts.googleapis.com\">\n<link rel=\"preconnect\" href=\"https://fonts.gstatic.com\" crossorigin>\n<link rel=\"stylesheet\" href=\"{STYLESHEET_URL}\">\n</head>"
    )
}

#[test]
fn frame_images_pack_as_numbered_pngs() {
    let bytes = pack_frame_images("launch", &[b"PNG1".to_vec(), b"PNG2".to_vec()]).unwrap();
    assert_eq!(&bytes[..2], b"PK");
    let mut archive = zip::ZipArchive::new(Cursor::new(bytes)).unwrap();
    assert_eq!(archive.len(), 2);
    assert_eq!(archive.by_index(0).unwrap().name(), "launch-frame-1.png");
    assert_eq!(archive.by_index(1).unwrap().name(), "launch-frame-2.png");
    let mut content = Vec::new();
    Read::read_to_end(&mut archive.by_index(1).unwrap(), &mut content).unwrap();
    assert_eq!(content, b"PNG2");
}

#[test]
fn google_fonts_link_is_found_with_its_bounds() {
    let html = format!(
        "<head>\n<link rel=\"preconnect\" href=\"https://fonts.googleapis.com\">\n<link rel=\"stylesheet\" href=\"{STYLESHEET_URL}\">\n<style>"
    );
    let link = google_fonts_link(&html).unwrap();
    assert_eq!(
        &html[link.start..link.end],
        format!("<link rel=\"stylesheet\" href=\"{STYLESHEET_URL}\">")
    );
    assert_eq!(
        link,
        FontLink {
            start: link.start,
            end: link.end,
            url: STYLESHEET_URL.to_owned()
        }
    );
    assert!(google_fonts_link("<head><style></style></head>").is_none());
}

#[test]
fn rewrite_replaces_one_font_url_with_a_data_uri() {
    let css = "@font-face { src: url(https://fonts.gstatic.com/s/inter/a.woff2) format('woff2'); }";
    let rewritten = inline_font_urls(css, &fake_fonts(css));
    assert_eq!(
        rewritten,
        format!(
            "@font-face {{ src: url({}) format('woff2'); }}",
            font_uri("a.woff2")
        )
    );
}

#[test]
fn rewrite_replaces_every_font_url() {
    let rewritten = inline_font_urls(FONT_CSS, &fake_fonts(FONT_CSS));
    assert!(rewritten.contains(&font_uri("a.woff2")));
    assert!(rewritten.contains(&font_uri("b.woff2")));
    assert!(!rewritten.contains("fonts.gstatic.com"));
    assert_eq!(rewritten.matches("data:font/woff2;base64,").count(), 2);
}

#[test]
fn rewrite_keeps_the_rest_of_the_css_unchanged() {
    let rewritten = inline_font_urls(FONT_CSS, &fake_fonts(FONT_CSS));
    let restored = rewritten
        .replace(
            &font_uri("a.woff2"),
            "https://fonts.gstatic.com/s/inter/a.woff2",
        )
        .replace(
            &font_uri("b.woff2"),
            "https://fonts.gstatic.com/s/inter/b.woff2",
        );
    assert_eq!(restored, FONT_CSS);
    assert_eq!(
        inline_font_urls("p { color: red }", &Vec::new()),
        "p { color: red }"
    );
}

#[test]
fn exported_html_holds_no_google_fonts_host_after_the_rewrite() {
    let html = page_with_fonts();
    assert!(html.contains(FONT_LINK_PREFIX));
    let result = replace_font_link(&html, &inline_font_urls(FONT_CSS, &fake_fonts(FONT_CSS)));
    assert!(!result.contains("fonts.googleapis.com"));
    assert!(result.contains("<style>\n@font-face"));
    assert!(!result.contains("rel=\"preconnect\""));
    assert!(result.contains("style-src 'unsafe-inline';"));
}

#[test]
fn exported_html_holds_no_gstatic_host_after_the_rewrite() {
    let result = replace_font_link(
        &page_with_fonts(),
        &inline_font_urls(FONT_CSS, &fake_fonts(FONT_CSS)),
    );
    assert!(!result.contains("fonts.gstatic.com"));
    assert!(result.contains(&font_uri("a.woff2")));
    assert!(result.contains("font-src 'self' data:;"));
}

#[test]
fn a_fetch_error_keeps_the_original_html_and_link() {
    let html = page_with_fonts();
    assert!(html.contains(FONT_LINK_PREFIX));
    assert_eq!(inline_google_fonts(&html, None, Vec::new()), html);
    let stylesheet = || Some(FONT_CSS.as_bytes().to_vec());
    let mut fonts: Vec<Option<Vec<u8>>> = fake_fonts(FONT_CSS).into_iter().map(Some).collect();
    fonts[1] = None;
    assert_eq!(inline_google_fonts(&html, stylesheet(), fonts), html);
    assert_eq!(inline_google_fonts(&html, stylesheet(), vec![None]), html);
    assert_eq!(
        inline_google_fonts(&html, Some(vec![0xff, 0xfe]), Vec::new()),
        html
    );
}

#[test]
fn a_page_whose_fonts_were_fetched_holds_them() {
    let html = page_with_fonts();
    let fonts = fake_fonts(FONT_CSS).into_iter().map(Some).collect();
    let result = inline_google_fonts(&html, Some(FONT_CSS.as_bytes().to_vec()), fonts);
    assert_eq!(
        result,
        replace_font_link(&html, &inline_font_urls(FONT_CSS, &fake_fonts(FONT_CSS)))
    );
    assert!(result.contains(&font_uri("b.woff2")));
}

#[test]
fn a_page_without_a_font_link_is_kept() {
    assert_eq!(replace_font_link("<head></head>", "p{}"), "<head></head>");
    assert_eq!(
        inline_google_fonts("<head></head>", Some(b"p{}".to_vec()), Vec::new()),
        "<head></head>"
    );
}

#[test]
fn attachment_disposition_names_the_design_file() {
    assert_eq!(
        attachment_disposition("overview", "pdf"),
        "attachment; filename=\"overview.pdf\""
    );
    assert_eq!(
        attachment_disposition("overview", "html"),
        "attachment; filename=\"overview.html\""
    );
    assert_eq!(
        attachment_disposition("overview", "pptx"),
        "attachment; filename=\"overview.pptx\""
    );
}

#[test]
fn base64_matches_known_vectors() {
    assert_eq!(base64_encode(b""), "");
    assert_eq!(base64_encode(b"f"), "Zg==");
    assert_eq!(base64_encode(b"fo"), "Zm8=");
    assert_eq!(base64_encode(b"foo"), "Zm9v");
    assert_eq!(base64_encode(b"foobar"), "Zm9vYmFy");
}

#[test]
fn base64_has_four_characters_for_each_three_bytes_begun() {
    for length in 0..9usize {
        let bytes = vec![0xfbu8; length];
        assert_eq!(base64_encode(&bytes).len(), (length + 2) / 3 * 4);
    }
    assert_eq!(base64_encode(&[0xff, 0xff, 0xfe]), "///+");
    assert_ne!(base64_encode(b"a"), base64_encode(b"a\0"));
}

#[test]
fn inlines_uploaded_images_in_html_and_css() {
    let mut design = sample_design();
    design.screens[0].html = "<img src='/uploads/chart.png'><div style=\"background:url(/uploads/chart.png)\"></div>".to_owned();
    design.screens[0].css = Some(".a { background: url('/uploads/chart.png'); }".to_owned());
    inline_uploaded_images(&mut design, &chart_uri());
    let expected = format!("data:image/png;base64,{}", base64_encode(b"PNGDATA"));
    assert_eq!(design.screens[0].html.matches(&expected).count(), 2);
    assert!(design.screens[0]
        .css
        .as_deref()
        .unwrap()
        .contains(&expected));
    assert!(!design.screens[0].html.contains("/uploads/"));
}

#[test]
fn inlines_uploaded_images_in_pages() {
    let mut document = Document {
        title: "T".to_owned(),
        theme: theme(),
        paper: Paper::A4,
        pages: vec![Page {
            html: "<img src='/uploads/chart.png'>".to_owned(),
            css: Some(".a { background: url('/uploads/chart.png'); }".to_owned()),
            notes: None,
        }],
        outline: Vec::new(),
    };
    inline_uploaded_page_images(&mut document, &chart_uri());
    let expected = format!("data:image/png;base64,{}", base64_encode(b"PNGDATA"));
    assert!(document.pages[0].html.contains(&expected));
    assert!(document.pages[0]
        .css
        .as_deref()
        .unwrap()
        .contains(&expected));
    assert!(!document.pages[0].html.contains("/uploads/"));
}

#[test]
fn inlines_uploaded_images_in_emails() {
    let mut mailing = Mailing {
        title: "T".to_owned(),
        theme: theme(),
        format: EmailFormat::Short,
        emails: vec![Email {
            html: "<img src='/uploads/chart.png'>".to_owned(),
            css: None,
            notes: Some("Subject: x".to_owned()),
        }],
        outline: Vec::new(),
    };
    inline_uploaded_email_images(&mut mailing, &chart_uri());
    assert_eq!(
        mailing.emails[0].html,
        format!("<img src='{}'>", chart_uri()[0].uri)
    );
    assert_eq!(mailing.emails[0].notes.as_deref(), Some("Subject: x"));
}

#[test]
fn keeps_missing_and_external_images_untouched() {
    let mut design = sample_design();
    design.screens[0].html =
        "<img src='/uploads/absent.png'><a href='https://example.com/a.png'>x</a>".to_owned();
    inline_uploaded_images(&mut design, &Vec::new());
    assert!(design.screens[0].html.contains("/uploads/absent.png"));
    assert!(design.screens[0].html.contains("https://example.com/a.png"));
}

#[test]
fn upload_references_are_found_with_their_bounds() {
    let references = upload_references("a /uploads/x.png b uploads/y-1.jpg c /uploads/");
    assert_eq!(references.len(), 2);
    assert_eq!(references[0].1, "x.png");
    assert_eq!(
        &"a /uploads/x.png"[references[0].0..references[0].2],
        "/uploads/x.png"
    );
    assert_eq!(references[1].1, "y-1.jpg");
}

#[test]
fn the_bounds_of_a_reference_count_bytes() {
    let text = "\u{e9}\u{4e2d} /uploads/x.png!";
    let references = upload_references(text);
    assert_eq!(references.len(), 1);
    assert_eq!(&text[references[0].0..references[0].2], "/uploads/x.png");
}

#[test]
fn names_are_collected_once_in_order() {
    let mut names = vec!["b.png".to_owned()];
    collect_upload_names("/uploads/a.png /uploads/b.png /uploads/a.png", &mut names);
    assert_eq!(names, ["b.png", "a.png"]);
    let mut design = sample_design();
    design.screens[0].html = "<img src='/uploads/a.png'>".to_owned();
    design.screens[0].css = Some("url(/uploads/b.png) url(/uploads/a.png)".to_owned());
    assert_eq!(unit_upload_names(&design.screens), ["a.png", "b.png"]);
}

#[test]
fn a_text_without_known_uploads_is_kept() {
    let text = "see /uploads/none.png";
    assert_eq!(replace_upload_references(text, &chart_uri()), text);
    assert_eq!(
        replace_upload_references("/uploads/chart.png.", &[chart_uri().remove(0)].into()),
        "/uploads/chart.png."
    );
}

#[test]
fn stored_names_hold_no_path() {
    assert!(is_stored_name("a-1.b.png"));
    assert!(!is_stored_name(""));
    assert!(!is_stored_name("../a.png"));
    assert!(!is_stored_name("a/b.png"));
}

#[test]
fn every_kind_of_image_has_its_own_file_names() {
    let images = [b"PNG".to_vec()];
    for (packed, name) in [
        (pack_sheet_images("x", &images), "x-sheet-1.png"),
        (pack_ad_images("x", &images), "x-ad-1.png"),
        (pack_email_images("x", &images), "x-email-1.png"),
    ] {
        let mut archive = zip::ZipArchive::new(Cursor::new(packed.unwrap())).unwrap();
        assert_eq!(archive.len(), 1);
        assert_eq!(archive.by_index(0).unwrap().name(), name);
    }
}

#[test]
fn email_html_files_are_numbered() {
    let file = |html: &str| EmailHtmlFile {
        html: html.to_owned(),
        subject: None,
        preheader: None,
    };
    let bytes = pack_email_html_files("launch", &[file("<p>1</p>"), file("<p>2</p>")]).unwrap();
    let mut archive = zip::ZipArchive::new(Cursor::new(bytes)).unwrap();
    assert_eq!(archive.by_index(0).unwrap().name(), "launch-email-1.html");
    let mut content = String::new();
    archive
        .by_name("launch-email-2.html")
        .unwrap()
        .read_to_string(&mut content)
        .unwrap();
    assert_eq!(content, "<p>2</p>");
}

#[test]
fn email_numbers_start_at_one() {
    assert_eq!(email_index("launch", 1, 2), Ok(0));
    assert_eq!(email_index("launch", 2, 2), Ok(1));
    assert!(email_index("launch", 0, 2).is_err());
    assert!(email_index("launch", 3, 2).unwrap_err().contains("launch"));
}

fn refused(needs_chrome: bool, has_chrome: bool) -> Option<u16> {
    export_source(true, Ok(Some(("artifact", Vec::new()))), needs_chrome, has_chrome)
        .err()
        .map(|refusal| refusal.status())
}

#[test]
fn social_exports_without_chrome_are_503() {
    assert_eq!(refused(true, false), Some(503));
}

#[test]
fn document_pdf_export_without_chrome_is_503() {
    assert_eq!(refused(true, false), Some(503));
    // The Word export needs no Chrome.
    assert_eq!(refused(false, false), None);
}

#[test]
fn deck_pdf_export_without_chrome_is_503() {
    assert_eq!(refused(true, false), Some(503));
    assert_eq!(refused(true, true), None);
}

#[test]
fn an_export_is_refused_for_the_first_reason() {
    let status = |refusal: Result<&str, ExportRefusal>| refusal.unwrap_err().status();
    let stored = || Ok(Some(("artifact", Vec::new())));
    assert_eq!(status(export_source(false, stored(), true, false)), 400);
    assert_eq!(status(export_source(true, Ok(None), true, false)), 404);
    assert_eq!(
        status(export_source(true, Err("disk".to_owned()), false, true)),
        500
    );
    let invalid = Ok(Some(("artifact", vec!["title: empty".to_owned()])));
    assert_eq!(status(export_source(true, invalid, true, false)), 422);
    assert_eq!(export_source(true, stored(), true, true).unwrap(), "artifact");
}

#[test]
fn a_page_with_its_fonts_inline_opens_offline() {
    let page = page_with_fonts();
    let offline = replace_font_link(&page, "@font-face { src: url(data:font/woff2;base64,AA) }");
    assert_eq!(
        offline,
        "<head>\n<meta http-equiv=\"Content-Security-Policy\" content=\"style-src 'unsafe-inline'; font-src 'self' data:;\">\n<style>\n@font-face { src: url(data:font/woff2;base64,AA) }\n</style>\n</head>"
    );
    assert!(page.contains(STYLE_HOST));
    assert!(page.contains(FONT_HOST));
    assert!(!offline.contains(STYLE_HOST));
    assert!(!offline.contains(FONT_HOST));
}
