use dotbot::latex::latex_url;

#[test]
fn formula_is_percent_encoded() {
    assert_eq!(
        latex_url("x^2"),
        "https://latex.codecogs.com/png.latex?\\dpi{250}\\bg{white}x%5E2"
    );
    assert_eq!(
        latex_url("a b-c.d_e~"),
        "https://latex.codecogs.com/png.latex?\\dpi{250}\\bg{white}a%20b-c.d_e~"
    );
    assert_eq!(
        latex_url("\u{e9}"),
        "https://latex.codecogs.com/png.latex?\\dpi{250}\\bg{white}%C3%A9"
    );
}
