use bth_rigging::print::calc_package_filename;
use bth_rigging::report::pdf;

#[test]
fn print_filename_strips_illegal_chars() {
    assert_eq!(
        calc_package_filename("Job <A>/B:?\"*"),
        "Job -A--B---- calc package.pdf"
    );
    assert_eq!(calc_package_filename("   "), "project calc package.pdf");
}

#[test]
fn pdf_filename_strips_illegal_chars() {
    assert_eq!(
        pdf::calc_package_filename("Job <A>/B:?\"*"),
        "Job -A--B---- calc package.pdf"
    );
    assert_eq!(pdf::calc_package_filename("   "), "project calc package.pdf");
}

#[test]
fn filename_trims_dots_after_whitespace() {
    assert_eq!(calc_package_filename("  ..Tower A..  "), "Tower A calc package.pdf");
    assert_eq!(calc_package_filename("..."), "project calc package.pdf");
    assert_eq!(calc_package_filename(". x ."), " x  calc package.pdf");
}

#[test]
fn filename_replaces_control_chars() {
    assert_eq!(calc_package_filename("A\tB\u{7f}C"), "A-B-C calc package.pdf");
    assert_eq!(calc_package_filename("a|b\\c"), "a-b-c calc package.pdf");
}

#[test]
fn filename_keeps_unicode() {
    assert_eq!(calc_package_filename("Grúa ☃"), "Grúa ☃ calc package.pdf");
    assert_eq!(calc_package_filename("\u{3000}Job\u{2003}"), "Job calc package.pdf");
}
