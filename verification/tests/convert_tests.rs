use werss_cli::convert::{image_ext_from_lowercase, slug_from_lowercase};
use werss_cli::convert::{
    article_to_md, clean_tail, convert_html, convert_html_for_download, dedent_code_blocks,
    dedent_text, image_ext_from_url, slugify, strip_content_html_header,
};

#[test]
fn convert_html_keeps_remote_image_urls_by_default() {
    let html = r#"<p>Hello</p><p><img src="https://example.com/demo.png"></p>"#;

    let result = convert_html(html);

    assert!(result.markdown.contains("https://example.com/demo.png"));
    assert!(!result.markdown.contains("imgs/0.png"));
    assert_eq!(result.images.len(), 1);
}

#[test]
fn convert_html_rewrites_image_urls_when_localized() {
    let html = r#"<p>Hello</p><p><img src="https://example.com/demo.png"></p>"#;

    let result = convert_html_for_download(html);

    assert!(result.markdown.contains("imgs/0.png"));
    assert!(!result.markdown.contains("https://example.com/demo.png"));
    assert_eq!(result.images.len(), 1);
}

#[test]
fn images_are_numbered_in_page_order_with_their_formats() {
    let html = r#"<p><img src="https://a.example/x.JPG?size=2"></p><p><img src='https://b.example/y.webp'></p>"#;
    let plain = convert_html(html);
    let local = convert_html_for_download(html);
    assert_eq!(plain.images.len(), 2);
    assert_eq!(plain.images[0].index, 0);
    assert_eq!(plain.images[0].format, "jpg");
    assert_eq!(plain.images[0].url, "https://a.example/x.JPG?size=2");
    assert_eq!(plain.images[1].index, 1);
    assert_eq!(plain.images[1].format, "webp");
    assert_eq!(plain.images[1].url, "https://b.example/y.webp");
    assert_eq!(local.images.len(), 2);
    assert!(local.markdown.contains("imgs/0.jpg"));
    assert!(local.markdown.contains("imgs/1.webp"));
}

#[test]
fn slugify_lowercases_and_dashes_whitespace() {
    assert_eq!(slugify("Hello World"), "hello-world");
    assert_eq!(slugify("  Qwen3.5 本地部署 实测  "), "qwen35-本地部署-实测");
    assert_eq!(slugify("AI Agent Skill 攻击真实示例与防御措施"), "ai-agent-skill-攻击真实示例与防御措施");
}

#[test]
fn slugify_falls_back_to_article() {
    assert_eq!(slugify(""), "article");
    assert_eq!(slugify("!!!"), "article");
    assert_eq!(slugify("--- ---"), "article");
    assert_eq!(slugify("   "), "article");
}

#[test]
fn slugify_drops_trailing_dashes() {
    assert_eq!(slugify("rust - "), "rust");
    assert_eq!(slugify("a-b-"), "a-b");
}

#[test]
fn slugify_cuts_at_200_bytes_on_a_char_boundary() {
    let long = "中".repeat(100);
    let slug = slugify(&long);
    assert!(slug.len() <= 200);
    assert_eq!(slug.len(), 198);
    assert_eq!(slug.chars().count(), 66);
    let ascii = "a".repeat(250);
    assert_eq!(slugify(&ascii), "a".repeat(200));
    let dashed = format!("{}b", "-".repeat(250));
    assert_eq!(slugify(&dashed), "article");
}

#[test]
fn slug_law_holds_on_samples() {
    for title in ["Hello World", "  x  ", "中文 标题", "a\tb\nc", "----", "É café"] {
        let slug = slugify(title);
        assert!(!slug.is_empty());
        assert!(slug.len() <= 200);
        assert!(!slug.ends_with('-'));
        assert!(!slug.chars().any(|c| c.is_whitespace()));
    }
}

#[test]
fn dedent_text_removes_common_indent() {
    assert_eq!(dedent_text("    a\n      b\n    c"), "a\n  b\nc");
    assert_eq!(dedent_text("\ta\n\t\tb"), "a\n\tb");
    assert_eq!(dedent_text("  a\n\n  b\n"), "a\n\nb");
    assert_eq!(dedent_text("  a\r\n  b"), "a\nb");
}

#[test]
fn dedent_text_leaves_unindented_text_alone() {
    assert_eq!(dedent_text("a\n  b\n"), "a\n  b\n");
    assert_eq!(dedent_text(""), "");
    assert_eq!(dedent_text("   \n  "), "   \n  ");
}

#[test]
fn dedent_code_blocks_dedents_each_block() {
    let md = "Intro\n\n```rust\n    fn main() {}\n        x\n```\n\nAfter";
    assert_eq!(
        dedent_code_blocks(md),
        "Intro\n\n```rust\nfn main() {}\n    x\n```\nAfter"
    );
}

#[test]
fn dedent_code_blocks_handles_unclosed_block() {
    assert_eq!(dedent_code_blocks("```\n  a\n  b"), "```\na\nb");
    assert_eq!(dedent_code_blocks("plain text"), "plain text");
    assert_eq!(dedent_code_blocks("a\n\n\nb"), "a\n\n\nb");
    assert_eq!(dedent_code_blocks("```\n x\n```\n\n\n```\n y\n```"), "```\nx\n```\n```\ny\n```\n");
}

#[test]
fn image_ext_from_url_reads_the_path() {
    assert_eq!(image_ext_from_url("https://x/y.PNG"), "png");
    assert_eq!(image_ext_from_url("https://x/y.jpeg?x=1"), "jpg");
    assert_eq!(image_ext_from_url("https://x/y.jpg"), "jpg");
    assert_eq!(image_ext_from_url("https://x/y.gif"), "gif");
    assert_eq!(image_ext_from_url("https://x/y.webp"), "webp");
    assert_eq!(image_ext_from_url("https://x/y.bmp"), "bmp");
    assert_eq!(image_ext_from_url("https://x/0?wx_fmt=jpeg"), "png");
    assert_eq!(image_ext_from_url("https://x/y.png?wx=.gif"), "png");
}

#[test]
fn strip_content_html_header_removes_cover_title_and_author() {
    let html = r#"<p><img alt="cover_image" src="c.jpg"></p><h1 class="t">Title</h1><p> 原创 someone</p><p>Body</p>  "#;
    assert_eq!(strip_content_html_header(html), "<p>Body</p>");
    assert_eq!(strip_content_html_header("  <p>x</p> "), "<p>x</p>");
}

#[test]
fn clean_tail_cuts_wechat_furniture() {
    let text = "Body line\n\n预览时标签不可点\n微信扫一扫";
    assert_eq!(clean_tail(text), "Body line");
    assert_eq!(clean_tail("Body\n赞\n在看\nmore"), "Body\nmore");
    assert_eq!(clean_tail("  plain  "), "plain");
    assert_eq!(clean_tail("x\n打开小程序y"), "x");
}

#[test]
fn article_to_md_writes_front_matter() {
    let (md, images) = article_to_md(
        "A \"quoted\" \\ title",
        "Author",
        "MP_1",
        "https://u",
        "",
        "",
        0,
        "",
        false,
    );
    assert_eq!(
        md,
        "---\ntitle: \"A \\\"quoted\\\" \\\\ title\"\nauthor: \"Author\"\nurl: \"https://u\"\nmp_id: \"MP_1\"\n---\n\n"
    );
    assert!(images.is_empty());
}

#[test]
fn article_to_md_includes_optional_fields_and_body() {
    let (md, images) = article_to_md(
        "T",
        "A",
        "M",
        "",
        "https://p/c.jpg",
        "D",
        1431648000,
        "<p>Hello</p><p><img src=\"https://e/x.gif\"></p>",
        true,
    );
    assert!(md.starts_with(
        "---\ntitle: \"T\"\nauthor: \"A\"\ncoverImage: \"https://p/c.jpg\"\nmp_id: \"M\"\ndescription: \"D\"\npublish_time: \"2015-05-15T00:00:00\"\n---\n"
    ));
    assert!(md.contains("Hello"));
    assert!(md.contains("imgs/0.gif"));
    assert!(md.ends_with('\n'));
    assert_eq!(images.len(), 1);
    assert_eq!(images[0].format, "gif");
}

#[test]
fn clean_tail_keeps_lines_that_only_start_with_a_button_word() {
    assert_eq!(clean_tail("第一段\n分享经验"), "第一段\n分享经验");
    assert_eq!(clean_tail("第一段\n分享\n第二段"), "第一段\n第二段");
    assert_eq!(clean_tail("正文\n留言"), "正文");
    assert_eq!(clean_tail("赞\n正文"), "赞\n正文");
    assert_eq!(clean_tail("a\n赞 \nb"), "a\n赞 \nb");
}

#[test]
fn nothing_after_a_tail_marker_survives() {
    let t = "正文第一行\n第二行";
    for m in ["\n预览时标签不可点", "\n微信扫一扫", "\n使用小程序", "\n打开小程序"] {
        let s = "\n更多内容\n预览时标签不可点\n赞";
        assert_eq!(clean_tail(&format!("{}{}{}", t, m, s)), clean_tail(t));
    }
}

#[test]
fn slug_characters_are_alphanumeric_dash_or_cjk() {
    for text in ["Hello, World! 2024", "深度学习：入门 & 实践", "  --Ünïcode  Tïtle--  "] {
        let s = slugify(text);
        assert!(s.chars().all(|c| c.is_alphanumeric() || c == '-' || ('\u{4e00}'..='\u{9fff}').contains(&c)));
        assert!(!s.ends_with('-'));
    }
}

#[test]
fn conversions_agree_without_images() {
    let html = "<p>Hello <b>world</b></p><pre><code>    x\n    y</code></pre>";
    assert_eq!(convert_html(html).markdown, convert_html_for_download(html).markdown);
    assert!(convert_html(html).images.is_empty());
}

#[test]
fn publish_time_is_quoted() {
    let (md, _) = article_to_md("T", "A", "M", "https://u", "https://c.jpg", "D", 1775089800, "", false);
    assert_eq!(
        md,
        "---\ntitle: \"T\"\nauthor: \"A\"\ncoverImage: \"https://c.jpg\"\nurl: \"https://u\"\nmp_id: \"M\"\ndescription: \"D\"\npublish_time: \"2026-04-02T00:30:00\"\n---\n\n"
    );
}

#[test]
fn lowercase_helpers_match_the_full_functions() {
    assert_eq!(slug_from_lowercase("  hello world  "), "hello-world");
    assert_eq!(slug_from_lowercase("!!!"), "article");
    assert_eq!(slugify("Hello World"), slug_from_lowercase("hello world"));
    assert_eq!(image_ext_from_lowercase("https://x/a.jpeg"), "jpg");
    assert_eq!(image_ext_from_lowercase("https://x/a.JPEG"), "png");
    assert_eq!(image_ext_from_url("https://x/a.JPEG?w=1"), "jpg");
}

#[test]
fn dedenting_is_idempotent_and_keeps_unindented_text() {
    let t = "    a\n      b\n\n    c";
    let once = dedent_text(t);
    assert_eq!(once, "a\n  b\n\nc");
    assert_eq!(dedent_text(&once), once);
    let flat = "x\n  y\r\n";
    assert_eq!(dedent_text(flat), flat);
    assert_eq!(dedent_text("   \n  "), "   \n  ");
}
