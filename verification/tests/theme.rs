use contrast::contrast;
use result_pages::theme::{
    darken, representative_color, ImageDecodeError, ThemeColor, ThemeError, ThemeSearch,
    ThemeStep, MAXIMUM_DARKENINGS, MINIMUM_CONTRAST,
};
use rgb::RGB8;

fn color(r: u8, g: u8, b: u8) -> ThemeColor {
    ThemeColor { r, g, b }
}

fn contrast_to_white(c: ThemeColor) -> f32 {
    contrast::<_, f32>(RGB8::new(c.r, c.g, c.b), RGB8::new(255, 255, 255))
}

fn derive(start: ThemeColor) -> Result<(ThemeColor, u8), ThemeError> {
    let mut search = ThemeSearch::start(start);
    loop {
        let suffices = contrast_to_white(search.candidate) >= f32::from(MINIMUM_CONTRAST);
        match search.advance(suffices) {
            ThemeStep::Found(found) => return Ok((found, search.darkenings)),
            ThemeStep::Measure(next) => search = next,
            ThemeStep::Failed(e) => return Err(e),
        }
    }
}

#[test]
fn hex_code_of_a_colour() {
    assert_eq!(color(0, 0, 0).to_hex(), "#000000");
    assert_eq!(color(255, 255, 255).to_hex(), "#ffffff");
    assert_eq!(color(0x12, 0xab, 0xf0).to_hex(), "#12abf0");
    assert_eq!(color(250, 128, 114).to_hex(), "#fa8072");
}

#[test]
fn default_colour_is_dark_grey() {
    assert_eq!(ThemeColor::default_color(), color(0x30, 0x30, 0x30));
    assert_eq!(ThemeColor::default_color().to_hex(), "#303030");
    assert!(contrast_to_white(ThemeColor::default_color()) >= 7.0);
}

#[test]
fn uniform_image_has_its_own_colour() {
    let mut pixels = Vec::new();
    for _ in 0..6 {
        pixels.extend_from_slice(&[10, 20, 30, 255]);
    }
    assert_eq!(representative_color(3, 2, pixels), Ok(color(10, 20, 30)));
}

#[test]
fn single_pixel_image() {
    assert_eq!(representative_color(1, 1, vec![200, 100, 50, 7]), Ok(color(200, 100, 50)));
}

#[test]
fn two_pixels_are_averaged() {
    let pixels = vec![0, 100, 200, 255, 100, 200, 0, 255];
    assert_eq!(representative_color(2, 1, pixels.clone()), Ok(color(50, 150, 100)));
    assert_eq!(representative_color(1, 2, pixels), Ok(color(50, 150, 100)));
}

#[test]
fn pixels_in_the_middle_weigh_more() {
    // The weights of three pixels in a row are 2/3, 1 and 2/3.
    let pixels = vec![0, 0, 0, 255, 70, 140, 210, 255, 0, 0, 0, 255];
    assert_eq!(representative_color(3, 1, pixels), Ok(color(30, 60, 90)));
}

#[test]
fn image_without_pixels_is_an_error() {
    assert_eq!(representative_color(0, 4, Vec::new()), Err(ImageDecodeError::Empty));
    assert_eq!(representative_color(4, 0, Vec::new()), Err(ImageDecodeError::Empty));
    assert_eq!(representative_color(0, 0, vec![1, 2, 3, 4]), Err(ImageDecodeError::Empty));
}

#[test]
fn pixel_data_of_the_wrong_length_is_an_error() {
    assert_eq!(representative_color(1, 1, vec![1, 2, 3]), Err(ImageDecodeError::WrongLength));
    assert_eq!(
        representative_color(1, 1, vec![1, 2, 3, 4, 5]),
        Err(ImageDecodeError::WrongLength)
    );
    assert_eq!(representative_color(2, 2, vec![0; 12]), Err(ImageDecodeError::WrongLength));
    assert_eq!(
        representative_color(u32::MAX, u32::MAX, vec![0; 4]),
        Err(ImageDecodeError::WrongLength)
    );
}

#[test]
fn grey_is_darkened_by_three_levels() {
    assert_eq!(darken(color(255, 255, 255)), Some(color(252, 252, 252)));
    assert_eq!(darken(color(48, 48, 48)), Some(color(45, 45, 45)));
    assert_eq!(darken(color(2, 2, 2)), Some(color(0, 0, 0)));
    assert_eq!(darken(color(0, 0, 0)), Some(color(0, 0, 0)));
}

#[test]
fn colours_are_darkened() {
    assert_eq!(darken(color(250, 128, 114)), Some(color(250, 122, 108)));
    assert_eq!(darken(color(255, 0, 0)), Some(color(250, 0, 0)));
    assert_eq!(darken(color(200, 100, 50)), Some(color(195, 98, 49)));
    assert_eq!(darken(color(0, 128, 0)), Some(color(0, 122, 0)));
    assert_eq!(darken(color(10, 65, 255)), Some(color(5, 59, 255)));
}

#[test]
fn darkening_may_raise_a_channel() {
    let before = color(10, 200, 255);
    let after = darken(before).unwrap();
    assert_eq!(after, color(5, 201, 255));
    assert!(contrast_to_white(after) < contrast_to_white(before));
}

#[test]
fn some_colours_cannot_be_darkened() {
    assert_eq!(darken(color(1, 1, 255)), None);
    assert_eq!(darken(color(5, 59, 255)), None);
    assert_eq!(darken(color(255, 63, 200)), None);
    assert_eq!(darken(color(130, 255, 131)), None);
    assert_eq!(darken(color(255, 254, 255)), None);
    assert!(darken(color(255, 64, 200)).is_some());
    assert!(darken(color(255, 65, 200)).is_some());
    assert!(darken(color(255, 129, 200)).is_some());
    assert!(darken(color(255, 132, 200)).is_some());
    assert!(darken(color(254, 1, 3)).is_some());
}

#[test]
fn every_colour_with_a_full_channel_is_darkened_or_refused() {
    let mut refused: u32 = 0;
    for a in 0..=255u8 {
        for b in 0..=255u8 {
            for c in [color(255, a, b), color(a, 255, b), color(a, b, 255)] {
                if darken(c).is_none() {
                    refused += 1;
                }
            }
        }
    }
    assert!(refused > 0);
}

#[test]
fn colours_without_a_full_channel_are_darkened() {
    let mut r: u16 = 0;
    while r < 255 {
        let mut g: u16 = 0;
        while g < 255 {
            let mut b: u16 = 0;
            while b < 255 {
                assert!(darken(color(r as u8, g as u8, b as u8)).is_some());
                b += 2;
            }
            g += 3;
        }
        r += 3;
    }
}

#[test]
fn search_keeps_a_colour_with_enough_contrast() {
    let search = ThemeSearch::start(color(0, 0, 255));
    assert_eq!(search.darkenings, 0);
    assert_eq!(search.advance(true), ThemeStep::Found(color(0, 0, 255)));
}

#[test]
fn search_darkens_a_colour_with_too_little_contrast() {
    let search = ThemeSearch::start(color(255, 255, 255));
    assert_eq!(
        search.advance(false),
        ThemeStep::Measure(ThemeSearch { candidate: color(252, 252, 252), darkenings: 1 })
    );
}

#[test]
fn search_ends_after_the_last_darkening_allowed() {
    let last = ThemeSearch { candidate: color(200, 200, 200), darkenings: MAXIMUM_DARKENINGS };
    assert_eq!(last.advance(false), ThemeStep::Failed(ThemeError::TooManyDarkenings));
    assert_eq!(last.advance(true), ThemeStep::Found(color(200, 200, 200)));
    let before = ThemeSearch { candidate: color(200, 200, 200), darkenings: MAXIMUM_DARKENINGS - 1 };
    assert_eq!(
        before.advance(false),
        ThemeStep::Measure(ThemeSearch { candidate: color(197, 197, 197), darkenings: 100 })
    );
}

#[test]
fn search_fails_on_a_colour_that_cannot_be_darkened() {
    let search = ThemeSearch::start(color(5, 59, 255));
    assert_eq!(
        search.advance(false),
        ThemeStep::Failed(ThemeError::CannotDarken(color(5, 59, 255)))
    );
}

#[test]
fn derived_colours_have_enough_contrast() {
    let expected = [
        (color(255, 255, 255), color(87, 87, 87), 56),
        (color(250, 128, 114), color(173, 22, 5), 31),
        (color(48, 48, 48), color(48, 48, 48), 0),
        (color(0, 0, 255), color(0, 0, 255), 0),
        (color(255, 0, 0), color(178, 0, 0), 13),
        (color(200, 100, 50), color(135, 70, 37), 13),
        (color(0, 128, 0), color(0, 104, 0), 4),
        (color(255, 255, 0), color(88, 88, 0), 28),
    ];
    for (start, theme, darkenings) in expected {
        assert_eq!(derive(start), Ok((theme, darkenings)));
        assert!(contrast_to_white(theme) >= 7.0);
    }
}

#[test]
fn derivation_fails_where_darkening_does() {
    assert_eq!(derive(color(10, 65, 255)), Err(ThemeError::CannotDarken(color(5, 59, 255))));
}

#[test]
fn every_grey_gets_a_theme_colour() {
    for level in 0..=255u8 {
        let (theme, darkenings) = derive(color(level, level, level)).unwrap();
        assert!(contrast_to_white(theme) >= 7.0);
        assert!(darkenings <= 56);
    }
}

#[test]
fn pixel_without_its_alpha() {
    assert_eq!(ThemeColor::from_rgba((1, 2, 3, 4)), color(1, 2, 3));
}

#[test]
fn step_with_a_given_darker_colour() {
    let search = ThemeSearch { candidate: color(200, 100, 50), darkenings: 3 };
    assert!(search.may_darken());
    assert_eq!(search.advance_with(true, None), ThemeStep::Found(color(200, 100, 50)));
    assert_eq!(
        search.advance_with(false, Some(color(1, 2, 3))),
        ThemeStep::Measure(ThemeSearch { candidate: color(1, 2, 3), darkenings: 4 })
    );
    assert_eq!(
        search.advance_with(false, None),
        ThemeStep::Failed(ThemeError::CannotDarken(color(200, 100, 50)))
    );
    let last = ThemeSearch { candidate: color(200, 100, 50), darkenings: MAXIMUM_DARKENINGS };
    assert!(!last.may_darken());
    assert_eq!(
        last.advance_with(false, Some(color(1, 2, 3))),
        ThemeStep::Failed(ThemeError::TooManyDarkenings)
    );
}
