//! Documents as Word files: blocks, pictures, parts, and the package.

use std::io::{Cursor, Read};

use swift_design::archive::{pack, NamedFile, LONGEST_NAME, LONG_NAME};
use swift_design::blocks::{attribute, blocks_from_html, document_blocks, trimmed, Block, Run};
use swift_design::docx::{
    body_xml, build_package, content_types_part, document_relationships_part, package_parts,
    page_size_twips, picture_extent, picture_xml, runs_xml, styles_part, DocumentInput, Picture,
    XML_HEADER,
};
use swift_design::image::image_size;
use swift_design::model::{Colors, Document, Duplicate, Fonts, Page, Paper, Theme};
use swift_design::pictures::{picture_of, picture_request, picture_requests, PictureRequest};

fn theme() -> Theme {
    Theme {
        name: "report".to_owned(),
        colors: Colors {
            background: "#ffffff".to_owned(),
            text: "#1a1d21".to_owned(),
            accent: "#2f6fdd".to_owned(),
            muted: "#6b7480".to_owned(),
        },
        fonts: Fonts {
            heading: "Inter".to_owned(),
            body: "Inter".to_owned(),
            mono: "JetBrains Mono".to_owned(),
        },
    }
}

fn page(html: &str, css: &str, notes: &str) -> Page {
    Page {
        html: html.to_owned(),
        css: Some(css.to_owned()),
        notes: Some(notes.to_owned()),
    }
}

fn sample_document() -> Document {
    Document {
        title: "Swift Design Quarterly Report".to_owned(),
        theme: theme(),
        paper: Paper::A4,
        pages: vec![
            page(
                "<div class='p1-cover'><p>Quarterly report</p><h1>Swift Design</h1></div>",
                ".p1-cover{padding:80px}",
                "The cover.",
            ),
            page(
                "<h2>Summary</h2><p>The harness asks a few questions, then writes.</p>\
                 <h3>What changed</h3><ul><li>Link capture reads a website into the run.</li>\
                 <li>Documents export as Word files.</li><li>Edits run per page.</li></ul>\
                 <h3>What is next</h3><p>More kinds.</p>",
                "h2{margin:0}",
                "The summary.",
            ),
            page(
                "<h2>Numbers</h2><table><tr><th>Month</th><th>Runs</th><th>Edits</th></tr>\
                 <tr><td>January</td><td>40</td><td>90</td></tr>\
                 <tr><td>February</td><td>55</td><td>120</td></tr>\
                 <tr><td>March</td><td>70</td><td>180</td></tr>\
                 <tr><td>April</td><td>90</td><td>240</td></tr></table>\
                 <p>Edits count every saved change.</p>",
                "h2{margin:0}",
                "The numbers.",
            ),
        ],
        outline: Vec::new(),
    }
}

fn plain(runs: &[Run]) -> String {
    runs.iter().map(|run| run.text.as_str()).collect()
}

fn run(text: &str) -> Run {
    Run {
        text: text.to_owned(),
        ..Run::default()
    }
}

fn png(width: u32, height: u32) -> Vec<u8> {
    let mut bytes = b"\x89PNG\r\n\x1a\n\0\0\0\rIHDR".to_vec();
    bytes.extend_from_slice(&width.to_be_bytes());
    bytes.extend_from_slice(&height.to_be_bytes());
    bytes
}

#[test]
fn headings_paragraphs_and_lists_come_out_in_order() {
    let blocks = blocks_from_html(&sample_document().pages[1].html);
    assert_eq!(blocks.len(), 8);
    assert!(matches!(&blocks[0], Block::Heading(2, runs) if plain(runs) == "Summary"));
    assert!(
        matches!(&blocks[1], Block::Paragraph(runs) if plain(runs).starts_with("The harness asks"))
    );
    assert!(matches!(&blocks[2], Block::Heading(3, runs) if plain(runs) == "What changed"));
    assert!(matches!(
        &blocks[3],
        Block::ListItem { number: None, runs } if plain(runs) == "Link capture reads a website into the run."
    ));
    assert!(matches!(&blocks[5], Block::ListItem { number: None, .. }));
    assert!(matches!(&blocks[6], Block::Heading(3, runs) if plain(runs) == "What is next"));
    assert!(matches!(&blocks[7], Block::Paragraph(..)));
}

#[test]
fn a_table_keeps_its_header_and_its_rows() {
    let blocks = blocks_from_html(&sample_document().pages[2].html);
    let Some(Block::Table { has_header, rows }) = blocks.get(1) else {
        panic!("expected a table, got {blocks:?}");
    };
    assert!(has_header);
    assert_eq!(rows.len(), 5);
    assert_eq!(plain(&rows[0][1]), "Runs");
    assert_eq!(plain(&rows[4][2]), "240");
    assert!(matches!(&blocks[2], Block::Paragraph(runs) if plain(runs).starts_with("Edits count")));
}

#[test]
fn inline_styles_breaks_ordered_lists_quotes_and_code_are_read() {
    let html = "<p>One <strong>bold</strong> and <em>soft &amp; <code>x</code></em>.<br>Next</p>\
                <ol><li>first</li><li>second</li></ol>\
                <blockquote>Quoted</blockquote>\
                <pre><code>let a = 1;\nlet b = 2;</code></pre>\
                <svg viewBox='0 0 1 1'><text>ignored</text></svg>\
                <div>Loose <span>text</span></div>";
    let blocks = blocks_from_html(html);
    let Block::Paragraph(runs) = &blocks[0] else {
        panic!("expected a paragraph");
    };
    assert_eq!(
        runs,
        &[
            Run {
                text: "One ".to_owned(),
                ..Run::default()
            },
            Run {
                text: "bold".to_owned(),
                is_bold: true,
                ..Run::default()
            },
            Run {
                text: " and ".to_owned(),
                ..Run::default()
            },
            Run {
                text: "soft & ".to_owned(),
                is_italic: true,
                ..Run::default()
            },
            Run {
                text: "x".to_owned(),
                is_italic: true,
                is_code: true,
                ..Run::default()
            },
            Run {
                text: ".".to_owned(),
                ..Run::default()
            },
            Run {
                text: "\n".to_owned(),
                ..Run::default()
            },
            Run {
                text: "Next".to_owned(),
                ..Run::default()
            },
        ]
    );
    assert!(matches!(
        &blocks[1],
        Block::ListItem {
            number: Some(1),
            ..
        }
    ));
    assert!(matches!(
        &blocks[2],
        Block::ListItem {
            number: Some(2),
            ..
        }
    ));
    assert!(matches!(&blocks[3], Block::Quote(runs) if plain(runs) == "Quoted"));
    assert_eq!(blocks[4], Block::Code("let a = 1;\nlet b = 2;".to_owned()));
    assert!(matches!(&blocks[5], Block::Paragraph(runs) if plain(runs) == "Loose text"));
    assert_eq!(blocks.len(), 6);
}

#[test]
fn images_become_blocks_and_attributes_are_read_in_any_quote() {
    let blocks = blocks_from_html(
        "<p>Before</p><img src='/uploads/chart.png' alt='x'><img src=\"/uploads/b.jpg\"><p>After</p>",
    );
    assert_eq!(blocks.len(), 4);
    assert_eq!(blocks[1], Block::Image("/uploads/chart.png".to_owned()));
    assert_eq!(blocks[2], Block::Image("/uploads/b.jpg".to_owned()));
    assert_eq!(attribute("img src=x.png", "src"), Some("x.png".to_owned()));
    assert_eq!(attribute("img data-src='y'", "src"), None);
}

#[test]
fn pages_are_joined_by_page_breaks() {
    let blocks = document_blocks(&sample_document());
    let breaks = blocks
        .iter()
        .filter(|block| **block == Block::PageBreak)
        .count();
    assert_eq!(breaks, 2);
    assert!(matches!(&blocks[0], Block::Paragraph(runs) if plain(runs) == "Quarterly report"));
    assert!(matches!(&blocks[1], Block::Heading(1, runs) if plain(runs) == "Swift Design"));
}

#[test]
fn image_sizes_come_from_the_headers() {
    let mut png = b"\x89PNG\r\n\x1a\n\0\0\0\rIHDR".to_vec();
    png.extend_from_slice(&800u32.to_be_bytes());
    png.extend_from_slice(&600u32.to_be_bytes());
    assert_eq!(image_size(&png), Some((800, 600)));
    let mut gif = b"GIF89a".to_vec();
    gif.extend_from_slice(&320u16.to_le_bytes());
    gif.extend_from_slice(&200u16.to_le_bytes());
    assert_eq!(image_size(&gif), Some((320, 200)));
    let mut jpeg = vec![0xFF, 0xD8, 0xFF, 0xE0, 0x00, 0x04, 0x00, 0x00];
    jpeg.extend_from_slice(&[0xFF, 0xC0, 0x00, 0x11, 0x08]);
    jpeg.extend_from_slice(&480u16.to_be_bytes());
    jpeg.extend_from_slice(&640u16.to_be_bytes());
    jpeg.extend_from_slice(&[0; 12]);
    assert_eq!(image_size(&jpeg), Some((640, 480)));
    assert_eq!(image_size(b"not an image"), None);
}

#[test]
fn a_wide_picture_shrinks_to_the_text_column() {
    let mut png = b"\x89PNG\r\n\x1a\n\0\0\0\rIHDR".to_vec();
    png.extend_from_slice(&2000u32.to_be_bytes());
    png.extend_from_slice(&1000u32.to_be_bytes());
    let (width, height) = picture_extent(&png, Paper::A4);
    assert_eq!(width, (11906 - 2880) * 635);
    assert_eq!(height, width / 2);
    let (small_width, small_height) = picture_extent(
        &{
            let mut small = b"\x89PNG\r\n\x1a\n\0\0\0\rIHDR".to_vec();
            small.extend_from_slice(&100u32.to_be_bytes());
            small.extend_from_slice(&50u32.to_be_bytes());
            small
        },
        Paper::Letter,
    );
    assert_eq!(small_width, 100 * 9525);
    assert_eq!(small_height, 50 * 9525);
    let (unknown_width, unknown_height) = picture_extent(b"?", Paper::Letter);
    assert_eq!(unknown_width, (12240 - 2880) * 635);
    assert_eq!(unknown_height, unknown_width * 3 / 4);
}

#[test]
fn the_body_carries_styles_breaks_and_the_paper_size() {
    let document = sample_document();
    let input = DocumentInput {
        title: document.title.clone(),
        theme: document.theme.duplicate(),
        paper: Paper::Letter,
        blocks: document_blocks(&document),
        pictures: Vec::new(),
    };
    let body = body_xml(&input);
    assert!(body.contains("<w:pStyle w:val=\"Heading1\"/>"));
    assert!(body.contains("<w:pStyle w:val=\"ListParagraph\"/>"));
    assert!(body.contains("<w:t xml:space=\"preserve\">•\t</w:t>"));
    assert!(body.contains("<w:tbl>"));
    assert_eq!(body.matches("<w:br w:type=\"page\"/>").count(), 2);
    assert!(body.contains("<w:pgSz w:w=\"12240\" w:h=\"15840\"/>"));
    assert!(body.contains("Swift Design"));
    assert!(!body.contains("<div"));
}

#[test]
fn the_styles_part_carries_the_theme() {
    let styles = styles_part(&sample_document().theme);
    assert!(styles.contains("w:ascii=\"Inter\""));
    assert!(styles.contains("w:ascii=\"JetBrains Mono\""));
    assert!(styles.contains("<w:color w:val=\"1A1D21\"/>"));
    assert!(styles.contains("<w:color w:val=\"2F6FDD\"/>"));
    assert!(styles.contains("w:styleId=\"Heading6\""));
}

#[test]
fn text_is_escaped_and_pictures_are_related() {
    let picture = Picture {
        src: "/uploads/a<b>.png".to_owned(),
        extension: "png".to_owned(),
        bytes: Vec::new(),
    };
    let xml = picture_xml("rId2", 1, &picture, Paper::A4);
    assert!(xml.contains("r:embed=\"rId2\""));
    assert!(xml.contains("name=\"/uploads/a&lt;b&gt;.png\""));
    let relationships = document_relationships_part(&[picture]);
    assert!(relationships.contains("Target=\"styles.xml\""));
    assert!(relationships.contains("Id=\"rId2\" Type=\"http://schemas.openxmlformats.org/officeDocument/2006/relationships/image\" Target=\"media/image1.png\""));
    let runs = runs_xml(
        &[Run {
            text: "a & b".to_owned(),
            is_bold: true,
            ..Run::default()
        }],
        &sample_document().theme,
    );
    assert_eq!(
        runs,
        "<w:r><w:rPr><w:b/></w:rPr><w:t xml:space=\"preserve\">a &amp; b</w:t></w:r>"
    );
}

#[test]
fn the_package_unzips_with_every_part() {
    let document = sample_document();
    let input = DocumentInput {
        title: document.title.clone(),
        theme: document.theme.duplicate(),
        paper: document.paper,
        blocks: document_blocks(&document),
        pictures: vec![Picture {
            src: "/uploads/chart.png".to_owned(),
            extension: "png".to_owned(),
            bytes: b"PNGDATA".to_vec(),
        }],
    };
    let bytes = build_package(&input).unwrap();
    let mut archive = zip::ZipArchive::new(Cursor::new(bytes)).unwrap();
    let mut names: Vec<String> = (0..archive.len())
        .map(|index| archive.by_index(index).unwrap().name().to_owned())
        .collect();
    names.sort();
    assert_eq!(
        names,
        [
            "[Content_Types].xml",
            "_rels/.rels",
            "docProps/core.xml",
            "word/_rels/document.xml.rels",
            "word/document.xml",
            "word/media/image1.png",
            "word/styles.xml",
        ]
    );
    let mut body = String::new();
    archive
        .by_name("word/document.xml")
        .unwrap()
        .read_to_string(&mut body)
        .unwrap();
    assert!(body.starts_with(XML_HEADER));
    assert!(body.contains("<w:pgSz w:w=\"11906\" w:h=\"16838\"/>"));
    assert_eq!(body.matches("<w:br w:type=\"page\"/>").count(), 2);
    let mut core = String::new();
    archive
        .by_name("docProps/core.xml")
        .unwrap()
        .read_to_string(&mut core)
        .unwrap();
    assert!(core.contains("<dc:title>Swift Design Quarterly Report</dc:title>"));
}

/// The pictures of a document whose uploads hold `chart.png` alone.
fn stored_pictures(document: &Document) -> Vec<Picture> {
    let mut pictures = Vec::new();
    for request in picture_requests(&document_blocks(document)) {
        if request.name == "chart.png" {
            pictures.push(picture_of(request, b"PNGDATA".to_vec()));
        }
    }
    pictures
}

#[test]
fn the_export_reads_pictures_from_the_uploads() {
    let mut document = sample_document();
    document.pages[0].html =
        "<h1>T</h1><img src='/uploads/chart.png'><img src='/uploads/missing.png'>".to_owned();
    let input = DocumentInput {
        title: document.title.clone(),
        theme: document.theme.duplicate(),
        paper: document.paper,
        blocks: document_blocks(&document),
        pictures: stored_pictures(&document),
    };
    let bytes = build_package(&input).unwrap();
    let mut archive = zip::ZipArchive::new(Cursor::new(bytes)).unwrap();
    assert!(archive.by_name("word/media/image1.png").is_ok());
    assert!(archive.by_name("word/media/image2.png").is_err());
    let mut body = String::new();
    archive
        .by_name("word/document.xml")
        .unwrap()
        .read_to_string(&mut body)
        .unwrap();
    assert_eq!(body.matches("<w:drawing>").count(), 1);
}

#[test]
fn a_picture_is_asked_for_once_and_only_from_the_uploads() {
    let blocks = blocks_from_html(
        "<img src='/uploads/a.png'><img src='https://x.example/b.png'>\
         <img src='/uploads/a.png'><img src='/uploads/c.jpeg'><img src='/uploads/d.svg'>",
    );
    assert_eq!(blocks.len(), 5);
    let names: Vec<String> = picture_requests(&blocks)
        .iter()
        .map(|request| request.name.clone())
        .collect();
    assert_eq!(names, ["a.png", "c.jpeg"]);
    assert_eq!(
        picture_request("/uploads/a.png"),
        Some(PictureRequest {
            src: "/uploads/a.png".to_owned(),
            name: "a.png".to_owned(),
            extension: "png".to_owned(),
        })
    );
    assert_eq!(picture_request("https://x.example/b.png"), None);
    assert_eq!(picture_request("/uploads/d.svg"), None);
}

#[test]
fn a_picture_takes_the_bytes_it_was_asked_for() {
    let request = picture_request("/uploads/a.png").unwrap();
    let picture = picture_of(request, vec![1, 2]);
    assert_eq!(picture.src, "/uploads/a.png");
    assert_eq!(picture.extension, "png");
    assert_eq!(picture.bytes, [1, 2]);
}

#[test]
fn a_page_gives_no_page_break_of_its_own() {
    for page in &sample_document().pages {
        assert!(!blocks_from_html(&page.html).contains(&Block::PageBreak));
    }
    let mut one = sample_document();
    one.pages.truncate(1);
    assert_eq!(
        document_blocks(&one),
        blocks_from_html(&sample_document().pages[0].html)
    );
}

#[test]
fn tags_that_stay_open_and_stray_closes_end_with_the_text() {
    assert_eq!(
        blocks_from_html("<p>open"),
        [Block::Paragraph(vec![run("open")])]
    );
    assert_eq!(
        blocks_from_html("</p>loose</b>"),
        [Block::Paragraph(vec![run("loose")])]
    );
    assert!(blocks_from_html("").is_empty());
    assert!(blocks_from_html("<p>  </p>").is_empty());
}

#[test]
fn code_in_a_run_takes_the_mono_font() {
    let xml = runs_xml(
        &[Run {
            text: "x".to_owned(),
            is_code: true,
            is_italic: true,
            ..Run::default()
        }],
        &theme(),
    );
    assert!(xml.contains("<w:i/>"));
    assert!(xml.contains("JetBrains Mono"));
    assert_eq!(
        runs_xml(&[run("\n")], &theme()),
        "<w:r><w:br/></w:r>"
    );
}

#[test]
fn each_paper_has_its_own_page_size() {
    assert_eq!(page_size_twips(Paper::A4), (11906, 16838));
    assert_eq!(page_size_twips(Paper::Letter), (12240, 15840));
}

#[test]
fn a_picture_never_passes_the_text_column() {
    for paper in [Paper::A4, Paper::Letter] {
        let column = (page_size_twips(paper).0 - 2880) * 635;
        for (width, height) in [(1, 1), (100, 4000), (5000, 3), (u32::MAX, u32::MAX), (0, 9)] {
            let (wide, _) = picture_extent(&png(width, height), paper);
            assert!(wide <= column);
        }
    }
    assert_eq!(picture_extent(&png(10, 20), Paper::A4), (95250, 190500));
}

#[test]
fn truncated_images_have_no_size() {
    assert_eq!(image_size(b""), None);
    assert_eq!(image_size(b"\x89PNG\r\n\x1a\n\0\0\0\rIHDR\0\0"), None);
    assert_eq!(image_size(b"GIF89a\x01"), None);
    assert_eq!(image_size(&[0xFF, 0xD8, 0xFF, 0xC0, 0x00]), None);
}

#[test]
fn the_content_types_cover_every_part() {
    let part = content_types_part();
    assert!(part.starts_with(XML_HEADER));
    assert!(part.contains("Extension=\"png\""));
    assert!(part.contains("/word/document.xml"));
    let parts = package_parts(&DocumentInput {
        title: "T".to_owned(),
        theme: theme(),
        paper: Paper::A4,
        blocks: Vec::new(),
        pictures: Vec::new(),
    });
    assert_eq!(parts.len(), 6);
}

#[test]
fn an_archive_gives_back_what_was_packed() {
    let files = vec![
        NamedFile {
            name: "a.txt".to_owned(),
            bytes: b"alpha".to_vec(),
        },
        NamedFile {
            name: "empty".to_owned(),
            bytes: Vec::new(),
        },
    ];
    for is_deflated in [false, true] {
        let bytes = pack(&files, is_deflated).unwrap();
        let mut archive = zip::ZipArchive::new(Cursor::new(bytes)).unwrap();
        assert_eq!(archive.len(), 2);
        for (index, file) in files.iter().enumerate() {
            let mut entry = archive.by_index(index).unwrap();
            assert_eq!(entry.name(), file.name);
            assert_eq!(
                entry.compression() == zip::CompressionMethod::Deflated,
                is_deflated
            );
            let mut content = Vec::new();
            entry.read_to_end(&mut content).unwrap();
            assert_eq!(content, file.bytes);
        }
    }
}

#[test]
fn a_name_that_no_archive_can_hold_is_an_error() {
    let long = NamedFile {
        name: "x".repeat(LONGEST_NAME + 1),
        bytes: Vec::new(),
    };
    assert_eq!(pack(&vec![long], false), Err(LONG_NAME.to_owned()));
    let twice = || NamedFile {
        name: "same".to_owned(),
        bytes: Vec::new(),
    };
    assert!(pack(&vec![twice(), twice()], true).is_err());
}

#[test]
fn a_small_archive_is_packed_whenever_its_names_fit_and_differ() {
    assert!(pack(&Vec::new(), true).is_ok());
    for is_deflated in [false, true] {
        let mut files = vec![NamedFile {
            name: "x".repeat(LONGEST_NAME),
            bytes: Vec::new(),
        }];
        let mut state: u32 = 1;
        for n in 0..40 {
            // Bytes that deflate cannot shorten.
            let bytes = (0..20_000)
                .map(|_| {
                    state = state.wrapping_mul(1_664_525).wrapping_add(1_013_904_223);
                    (state >> 24) as u8
                })
                .collect();
            files.push(NamedFile {
                name: format!("file-{n}"),
                bytes,
            });
        }
        let bytes = pack(&files, is_deflated).unwrap();
        let mut archive = zip::ZipArchive::new(Cursor::new(bytes)).unwrap();
        assert_eq!(archive.len(), 41);
        let mut content = Vec::new();
        archive
            .by_index(40)
            .unwrap()
            .read_to_end(&mut content)
            .unwrap();
        assert_eq!(content, files[40].bytes);
    }
}

#[test]
fn an_svg_is_skipped_whole() {
    let paragraph = vec![Block::Paragraph(vec![run("a")])];
    for html in [
        "<svg><svg></svg><text>x</text></svg><p>a</p>",
        "<svg><text>x</text></svg><p>a</p>",
        "<SVG><text>x</text></SVG><p>a</p>",
        "<svg><text>x</text></svg ><p>a</p>",
        "<svg viewBox='0 0 1 1'><svg/><text>x</text></svg></svg><p>a</p>",
        "<svg/><text>x</text></svg><p>a</p>",
        "<svg><SVG></Svg></sVg\n><p>a</p>",
    ] {
        assert_eq!(blocks_from_html(html), paragraph, "{html}");
    }
    assert!(blocks_from_html("<svg><text>x</text><p>a</p>").is_empty());
    assert!(blocks_from_html("<svg/><p>a</p>").is_empty());
    assert!(blocks_from_html("<svg><svg/></svg><p>a</p>").is_empty());
}

#[test]
fn a_block_has_no_white_space_around_it() {
    let paragraph = vec![Block::Paragraph(vec![run("a")])];
    assert_eq!(blocks_from_html("<p>a <br></p>"), paragraph);
    assert_eq!(blocks_from_html("<p> <br>\n a<br><br></p>"), paragraph);
    assert_eq!(
        trimmed(&vec![run("a "), run("\n")]),
        vec![run("a")]
    );
    let bold = || Run {
        is_bold: true,
        ..run(" b ")
    };
    assert_eq!(
        trimmed(&vec![run(" "), run(" a"), run(""), bold(), run("\n")]),
        vec![
            run("a"),
            Run {
                is_bold: true,
                ..run(" b")
            }
        ]
    );
    assert!(trimmed(&vec![run(" "), run("\n")]).is_empty());
    assert!(trimmed(&Vec::new()).is_empty());
    assert_eq!(trimmed(&vec![run(" x ")]), vec![run("x")]);
}

#[test]
fn runs_follow_each_other_with_one_break_per_newline() {
    let theme = theme();
    let first = [run("a\nb"), run("\n")];
    let second = [
        Run {
            is_bold: true,
            is_italic: true,
            is_code: true,
            ..run("<w:br/>\n\nc")
        },
        run(""),
    ];
    let mut both: Vec<Run> = Vec::new();
    both.extend([run("a\nb"), run("\n")]);
    both.extend([
        Run {
            is_bold: true,
            is_italic: true,
            is_code: true,
            ..run("<w:br/>\n\nc")
        },
        run(""),
    ]);
    let xml = runs_xml(&both, &theme);
    assert_eq!(
        xml,
        format!("{}{}", runs_xml(&first, &theme), runs_xml(&second, &theme))
    );
    assert_eq!(xml.matches("<w:br/>").count(), 4);
    assert_eq!(runs_xml(&[], &theme), "");
}

#[test]
fn an_attribute_is_not_read_from_another_value() {
    let read = |tag: &str| attribute(tag, "src");
    assert_eq!(
        read("img alt=\"a src=b\" src='/uploads/c.png'"),
        Some("/uploads/c.png".to_owned())
    );
    assert_eq!(read("img alt='x src=y'"), None);
    assert_eq!(read("img/SRC = \"a&amp;b\"/"), Some("a&b".to_owned()));
    assert_eq!(read("img srcset=x src src=y"), Some("y".to_owned()));
    assert_eq!(read("img alt=don't src=z"), Some("z".to_owned()));
    assert_eq!(read("img data-x=/src=1 src=2"), Some("2".to_owned()));
    assert_eq!(read("img src='open"), None);
    assert_eq!(read("img = src=a"), None);
    assert_eq!(read(""), None);
}

#[test]
fn a_table_keeps_its_rows_and_its_caption_in_reading_order() {
    let cell = |text: &str| vec![run(text)];
    assert_eq!(
        blocks_from_html(
            "<table><caption>Cap</caption><tr></tr><tr><th>H</th></tr><tr><td>a</td></tr></table><p>z</p>"
        ),
        vec![
            Block::Paragraph(cell("Cap")),
            Block::Table {
                has_header: true,
                rows: vec![vec![cell("H")], vec![cell("a")]],
            },
            Block::Paragraph(cell("z")),
        ]
    );
    assert_eq!(
        blocks_from_html("<table><tr><td>a<tr><td>b</table>"),
        vec![Block::Table {
            has_header: false,
            rows: vec![vec![cell("a"), cell("b")]],
        }]
    );
}

#[test]
fn the_last_open_block_is_closed() {
    assert_eq!(
        blocks_from_html("<pre>let x;\n"),
        vec![Block::Code("let x;".to_owned())]
    );
    assert_eq!(
        blocks_from_html("<table><tr><td>a"),
        vec![Block::Table {
            has_header: false,
            rows: vec![vec![vec![run("a")]]],
        }]
    );
}
