//! Printing to a file.

use velox_browser::print::{suggest_pdf_filename, Orientation, PaperSize};

fn inches(size: (u32, u32)) -> (f64, f64) {
    (f64::from(size.0) / 100.0, f64::from(size.1) / 100.0)
}

#[test]
fn paper_sizes_have_distinct_portrait_dimensions() {
    assert_eq!(inches(PaperSize::A4.portrait_hundredths()), (8.27, 11.69));
    assert_eq!(inches(PaperSize::Letter.portrait_hundredths()), (8.5, 11.0));
    assert_eq!(inches(PaperSize::Legal.portrait_hundredths()), (8.5, 14.0));
}

#[test]
fn page_dimensions_swap_for_landscape() {
    let portrait = PaperSize::Letter.page_hundredths(Orientation::Portrait);
    let landscape = PaperSize::Letter.page_hundredths(Orientation::Landscape);
    assert_eq!(inches(portrait), (8.5, 11.0));
    assert_eq!(inches(landscape), (11.0, 8.5));
}

#[test]
fn the_defaults_are_upright_a4() {
    assert_eq!(PaperSize::default(), PaperSize::A4);
    assert_eq!(Orientation::default(), Orientation::Portrait);
}

#[test]
fn suggest_pdf_filename_uses_the_title_when_present() {
    assert_eq!(
        suggest_pdf_filename(Some("Example Page"), "https://example.com/"),
        "Example Page.pdf"
    );
}

#[test]
fn suggest_pdf_filename_trims_a_whitespace_only_title() {
    assert_eq!(
        suggest_pdf_filename(Some("   "), "https://example.com/path"),
        "example.com.pdf"
    );
}

#[test]
fn suggest_pdf_filename_falls_back_to_the_host_with_no_title() {
    assert_eq!(
        suggest_pdf_filename(None, "https://example.com/path?x=1"),
        "example.com.pdf"
    );
}

#[test]
fn suggest_pdf_filename_falls_back_to_a_generic_name_for_an_unparseable_url() {
    assert_eq!(suggest_pdf_filename(None, "about:blank"), "ページ.pdf");
    assert_eq!(suggest_pdf_filename(None, "not a url"), "ページ.pdf");
}
