use bullets::error::Error;
use bullets::raster::{linear_move, Browser, Direction, PixelState, Raster};
use bullets::raster::PixelState::{Bullet, Empty, Filler, Text};

fn raster_from_vec(map: Vec<Vec<PixelState>>) -> Raster {
    let mut raster = Raster::new((map.len() as i32, map[0].len() as i32));
    for row in &map {
        for pixel in row {
            raster.push(*pixel);
        }
    }
    raster
}

#[test]
fn raster_test() {
    let raster = raster_from_vec(vec![
        vec![Empty, Filler(2), Empty], //
        vec![Empty, Bullet(2), Empty], //
    ]);

    assert_eq!(raster.get((0, 0)).unwrap(), Empty);
    assert_eq!(raster.get((0, 1)).unwrap(), Filler(2));
    assert_eq!(raster.get((0, 2)).unwrap(), Empty);
    assert_eq!(raster.get((1, 0)).unwrap(), Empty);
    assert_eq!(raster.get((1, 1)).unwrap(), Bullet(2));
    assert_eq!(raster.get((1, 2)).unwrap(), Empty);
}

#[test]
fn linear_move_test() {
    assert_eq!(linear_move((1, 1), (10, 10), 1), Some((1, 2))); // + on line
    assert_eq!(linear_move((1, 1), (10, 10), -1), Some((1, 0))); // - on line
    assert_eq!(linear_move((1, 1), (10, 10), 11), Some((2, 2))); // + overflow
    assert_eq!(linear_move((1, 1), (10, 10), -11), Some((0, 0))); // - overflow
    assert_eq!(linear_move((1, 1), (10, 10), 33), Some((4, 4))); // + multiple
    assert_eq!(linear_move((5, 5), (10, 10), -33), Some((2, 2))); // - multiple
}

#[test]
fn browser_go_while_continuous() {
    let sample_text = Text { id: 0, offset: 0 };
    let raster = raster_from_vec(vec![
        vec![Empty, Filler(2), Empty],         //
        vec![Empty, sample_text, sample_text], //
        vec![sample_text, sample_text, Empty], //
    ]);

    let mut count = 2;
    let browser = raster
        .browser((1, 1))
        .unwrap()
        .go_while(Direction::Right, move |state: PixelState| {
            (count -= 1, count > 0 && state.is_text()).1
        })
        .unwrap();
    assert_eq!(browser.pos(), (2, 0));
    let mut count = 2;
    assert_eq!(
        browser
            .go_while(Direction::Left, move |state: PixelState| {
                (count -= 1, count > 0 && state.is_text()).1
            })
            .unwrap()
            .pos(),
        (1, 1)
    );
}

#[test]
fn browser_go_while_interrupted() {
    let sample_text = Text { id: 0, offset: 0 };
    let raster = raster_from_vec(vec![
        vec![Bullet(2), Filler(2), sample_text, sample_text, sample_text], //
        vec![Empty, Bullet(3), Filler(3), sample_text, sample_text],       //
        vec![Empty, Empty, Empty, sample_text, sample_text],               //
    ]);

    let browser = raster.browser((1, 3)).unwrap();
    let browser = browser
        .go_until_count(Direction::Right, 3, |state: PixelState| state.is_text())
        .unwrap();
    assert_eq!(browser.pos(), (2, 4));
    let browser = browser
        .go_until_count(Direction::Left, 3, |state: PixelState| state.is_text())
        .unwrap();
    assert_eq!(browser.pos(), (1, 3));
}

#[test]
fn browser_out_of_bounds() {
    let sample_text = Text { id: 0, offset: 0 };
    let raster = raster_from_vec(vec![
        vec![Bullet(2), Filler(2), sample_text, sample_text], //
        vec![Empty, Bullet(3), Filler(3), sample_text],       //
        vec![Empty, Empty, Empty, sample_text],               //
    ]);

    assert!(raster
        .browser((1, 1))
        .unwrap()
        .go_until_count(Direction::Right, 100, |state: PixelState| state.is_text())
        .is_err());
    assert!(raster
        .browser((1, 1))
        .unwrap()
        .go_until_count(Direction::Left, 100, |state: PixelState| state.is_text())
        .is_err());
}

#[test]
fn go_while_one_jump() {
    let text = Text { id: 0, offset: 0 };
    let raster = raster_from_vec(vec![
        vec![text, text], //
        vec![text, text], //
    ]);
    assert_eq!(
        raster
            .browser((0, 1))
            .unwrap()
            .go_while(Direction::Left, |state: PixelState| !state.is_text())
            .unwrap()
            .pos(),
        (0, 0)
    );

    let raster = raster_from_vec(vec![
        vec![text, Empty], //
        vec![Empty, text], //
    ]);
    assert_eq!(
        raster
            .browser((1, 1))
            .unwrap()
            .go_while(Direction::Left, |state: PixelState| !state.is_text())
            .unwrap()
            .pos(),
        (0, 0)
    );
}

#[test]
fn browser_get_bounds() {
    let raster = raster_from_vec(vec![
        vec![Empty, Empty], //
        vec![Empty, Empty], //
    ]);

    assert!(raster.browser((100, 100)).is_err());
}

#[test]
fn browser_go_no_wrap_test() -> Result<(), Error> {
    let raster = raster_from_vec(vec![
        vec![Empty, Empty, Empty], //
        vec![Empty, Empty, Empty], //
        vec![Empty, Empty, Empty], //
    ]);

    assert_eq!(
        raster
            .browser((1, 1))
            .unwrap()
            .go_no_wrap(Direction::Up)?
            .pos(),
        (0, 1)
    );
    assert_eq!(
        raster
            .browser((1, 1))
            .unwrap()
            .go_no_wrap(Direction::Left)?
            .pos(),
        (1, 0)
    );
    assert_eq!(
        raster
            .browser((1, 1))
            .unwrap()
            .go_no_wrap(Direction::Right)?
            .pos(),
        (1, 2)
    );
    assert_eq!(
        raster
            .browser((1, 1))
            .unwrap()
            .go_no_wrap(Direction::Down)?
            .pos(),
        (2, 1)
    );
    Ok(())
}

fn position_of(r: Result<Browser, Error>) -> Result<(i32, i32), Error> {
    r.map(|b| b.pos())
}

#[test]
fn grid_addressing_wraps_both_ways() {
    assert_eq!(linear_move((1, 1), (10, 10), 11), Some((2, 2)));
    assert_eq!(linear_move((1, 1), (10, 10), -11), Some((0, 0)));
    assert_eq!(linear_move((0, 0), (10, 10), -1), None);
    assert_eq!(linear_move((9, 9), (10, 10), 1), None);
    assert_eq!(linear_move((9, 9), (10, 10), 0), Some((9, 9)));
    assert_eq!(linear_move((0, 3), (2, 4), 1), Some((1, 0)));
}

#[test]
fn browser_stays_on_the_grid() {
    let raster = raster_from_vec(vec![
        vec![Empty, Empty], //
        vec![Empty, Empty], //
    ]);
    let corner = raster.browser((0, 0)).unwrap();
    assert_eq!(position_of(corner.go_no_wrap(Direction::Up)), Err(Error::OutOfBounds));
    assert_eq!(position_of(corner.go_no_wrap(Direction::Left)), Err(Error::OutOfBounds));
    assert_eq!(corner.pos(), (0, 0));
    let right = corner.go_no_wrap(Direction::Right).unwrap();
    assert_eq!(right.pos(), (0, 1));
    assert_eq!(position_of(right.go_no_wrap(Direction::Right)), Err(Error::OutOfBounds));
    assert_eq!(right.pos(), (0, 1));
    let down = right.go_no_wrap(Direction::Down).unwrap();
    assert_eq!(down.pos(), (1, 1));
    assert_eq!(position_of(down.go_no_wrap(Direction::Down)), Err(Error::OutOfBounds));
    assert_eq!(
        position_of(down.go_while(Direction::Right, |_s: PixelState| true)),
        Err(Error::OutOfBounds)
    );
    assert_eq!(
        position_of(down.go_while(Direction::Up, |_s: PixelState| true)),
        Err(Error::UnsupportedDirection)
    );
    assert_eq!(
        position_of(corner.go_while(Direction::Right, |_s: PixelState| false)),
        Ok((0, 1))
    );
}

#[test]
fn counted_scans() {
    let text = Text { id: 1, offset: 0 };
    let raster = raster_from_vec(vec![
        vec![text, Empty, text, Empty], //
        vec![text, text, Empty, Empty], //
    ]);
    let start = raster.browser((0, 0)).unwrap();
    assert_eq!(position_of(start.go_while_or_count(Direction::Right, 0, |_s: PixelState| true)), Ok((0, 0)));
    assert_eq!(position_of(start.go_while_or_count(Direction::Right, 3, |_s: PixelState| true)), Ok((0, 3)));
    assert_eq!(
        position_of(start.go_while_or_count(Direction::Right, 3, |s: PixelState| !s.is_text())),
        Ok((0, 2))
    );
    assert_eq!(position_of(start.go_until_count(Direction::Right, 0, |s: PixelState| s.is_text())), Ok((0, 0)));
    assert_eq!(position_of(start.go_until_count(Direction::Right, 3, |s: PixelState| s.is_text())), Ok((1, 1)));
    assert_eq!(
        position_of(start.go_until_count(Direction::Right, 4, |s: PixelState| s.is_text())),
        Err(Error::OutOfBounds)
    );
    assert_eq!(start.map(|b| b.state()), text);
}

#[test]
fn a_new_grid_is_empty() {
    let raster = Raster::new((3, 4));
    for row in -1..5 {
        for col in -1..6 {
            let on_grid = 0 <= row && row < 3 && 0 <= col && col < 4;
            assert_eq!(raster.get((row, col)), if on_grid { Some(Empty) } else { None });
            assert_eq!(raster.browser((row, col)).is_ok(), on_grid);
            if let Ok(b) = raster.browser((row, col)) {
                assert_eq!(b.state(), Empty);
                assert_eq!(b.raster_get(), Some(Empty));
            }
        }
    }
    assert!(!raster.is_full());
    assert_eq!(raster.free(), 12);
    let none = Raster::new((0, 5));
    assert_eq!(none.get((0, 0)), None);
    assert!(none.browser((0, 0)).is_err());
}

#[test]
fn scans_ask_about_cells_not_written() {
    let mut raster = Raster::new((2, 3));
    raster.push(Text { id: 1, offset: 0 });
    raster.push(Filler(1));
    let start = raster.browser((0, 0)).unwrap();
    assert_eq!(position_of(start.go_while(Direction::Right, |s| s != Empty)), Ok((0, 2)));
    assert_eq!(position_of(start.go_while(Direction::Right, |s| s == Filler(1))), Ok((0, 2)));
    assert_eq!(
        position_of(start.go_while(Direction::Right, |s| s != Bullet(9))),
        Err(Error::OutOfBounds)
    );
    assert_eq!(position_of(start.go_until_count(Direction::Right, 3, |s| s == Empty)), Ok((1, 1)));
    assert_eq!(position_of(start.go_while_or_count(Direction::Right, 4, |_| true)), Ok((1, 1)));
    assert_eq!(
        position_of(start.go_while_or_count(Direction::Right, 6, |_| true)),
        Err(Error::OutOfBounds)
    );
    let end = raster.browser((1, 2)).unwrap();
    assert_eq!(end.state(), Empty);
    assert_eq!(position_of(end.go_while(Direction::Left, |s| s == Empty)), Ok((0, 1)));
}

#[test]
fn cells_written_and_not() {
    let mut raster = Raster::new((2, 2));
    assert_eq!(raster.get((0, 0)), Some(Empty));
    raster.push_multiple(Filler(7), 3);
    assert_eq!(raster.get((1, 0)), Some(Filler(7)));
    assert_eq!(raster.get((1, 1)), Some(Empty));
    assert_eq!(raster.get((-1, 0)), None);
    assert_eq!(raster.get((0, 2)), None);
    assert_eq!(raster.get((2, 0)), None);
    assert!(!raster.is_full());
    raster.push(PixelState::Placeholder(3));
    assert!(raster.is_full());
    assert!(PixelState::Placeholder(3).is_browsable());
    assert!(!Bullet(3).is_browsable());
    assert_eq!(Bullet(3).id(), Some(3));
    assert_eq!(Empty.id(), None);
}
