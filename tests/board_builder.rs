use checkers_lib::position;
use checkers_lib::{BoardBuilder, Error, Piece, Position, RulesError};

fn pos(n: u8) -> Position {
    Position::from_notation(n).unwrap()
}

#[test]
fn test_empty() -> Result<(), Error> {
    assert_eq!(BoardBuilder::empty(), BoardBuilder::try_from_template([[0; 8]; 8])?);

    Ok(())
}

#[test]
fn test_from_template() -> Result<(), Error> {
    let template = [
        [0, 2, 0, 0, 0, 0, 0, 3],
        [0, 0, 0, 0, 0, 0, 0, 0],
        [0, 0, 0, 0, 0, 0, 0, 0],
        [0, 0, 0, 0, 0, 0, 0, 0],
        [0, 0, 0, 0, 0, 0, 0, 0],
        [0, 0, 0, 0, 0, 0, 0, 0],
        [0, 0, 0, 0, 0, 0, 0, 0],
        [1, 0, 0, 0, 0, 0, 4, 0],
    ];

    let mut result = vec![[
        None,
        Some(Piece { is_king: false, is_white: false, position: 1.try_into()? }),
        None,
        None,
        None,
        None,
        None,
        Some(Piece { is_king: true, is_white: true, position: 4.try_into()? }),
    ]];
    result.extend([[None; 8]; 6]);
    result.push([
        Some(Piece { is_king: false, is_white: true, position: 29.try_into()? }),
        None,
        None,
        None,
        None,
        None,
        Some(Piece { is_king: true, is_white: false, position: 32.try_into()? }),
        None,
    ]);

    assert_eq!(BoardBuilder::try_from_template(template)?.build().iter(), result);

    Ok(())
}

#[test]
fn test_try_insert() -> Result<(), Error> {
    let mut white = Piece { is_king: false, is_white: true, position: 17.try_into()? };

    let mut black_king = Piece { is_king: true, is_white: false, position: 14.try_into()? };

    let board = BoardBuilder::empty().try_insert(white)?.try_insert(black_king)?.build();

    assert_eq!(board.get_tile(white.position).unwrap(), white);
    assert_eq!(board.get_tile(black_king.position).unwrap(), black_king);

    // Must not go over color limit
    BoardBuilder::default().try_insert(white).expect_err("tried to insert over white color limit");
    BoardBuilder::default()
        .try_insert(black_king)
        .expect_err("tried to insert over black color limit");

    // Must not place into occupied
    white.position = 29.try_into()?;
    black_king.position = 1.try_into()?;
    BoardBuilder::default().try_insert(white).expect_err("tried to insert piece into occupied tile");

    // Must not place non-king piece into promoting tile
    BoardBuilder::empty()
        .try_insert(Piece { is_king: false, is_white: true, position: 1.try_into()? })
        .expect_err("tried to place non-king piece into promoting tile");

    Ok(())
}

#[test]
fn test_try_remove() -> Result<(), Error> {
    BoardBuilder::default().try_remove(1.try_into()?)?.try_remove(32.try_into()?)?;

    BoardBuilder::empty().try_remove(1.try_into()?).expect_err("tried to remove from empty tile");

    Ok(())
}

#[test]
fn test_try_replace() -> Result<(), Error> {
    let white = Piece { is_king: false, is_white: true, position: 6.try_into()? };

    let mut black = Piece { is_king: false, is_white: false, position: 6.try_into()? };

    assert_eq!(
        BoardBuilder::empty().try_insert(white)?.try_replace(black)?,
        BoardBuilder::try_from_template([
            [0, 0, 0, 0, 0, 0, 0, 0],
            [0, 0, 2, 0, 0, 0, 0, 0],
            [0, 0, 0, 0, 0, 0, 0, 0],
            [0, 0, 0, 0, 0, 0, 0, 0],
            [0, 0, 0, 0, 0, 0, 0, 0],
            [0, 0, 0, 0, 0, 0, 0, 0],
            [0, 0, 0, 0, 0, 0, 0, 0],
            [0, 0, 0, 0, 0, 0, 0, 0]
        ])?
    );

    // Must not replace in empty tile
    BoardBuilder::empty().try_replace(white).expect_err("tried to replace empty tile");

    // Must not go over color limit
    black.position = 32.try_into()?;
    BoardBuilder::default().try_replace(white).expect_err("tried to replace over white color limit");
    BoardBuilder::default().try_replace(black).expect_err("tried to replace over black color limit");

    Ok(())
}

#[test]
fn thirteenth_piece_hits_color_limit() {
    let mut builder = BoardBuilder::empty();
    for n in 5..=16u8 {
        builder = builder.try_insert(Piece::new(false, true, pos(n))).unwrap();
    }
    assert_eq!(
        builder.try_insert(Piece::new(false, true, pos(17))),
        Err(Error::Rules(RulesError::ColorLimit { is_white: true }))
    );
}

#[test]
fn insert_errors_are_exact() {
    let builder = BoardBuilder::empty().try_insert(Piece::new(false, false, pos(10))).unwrap();
    assert_eq!(
        builder.try_insert(Piece::new(true, true, pos(10))),
        Err(Error::Rules(RulesError::Occupied(pos(10))))
    );
    assert_eq!(
        BoardBuilder::empty().try_insert(Piece::new(false, true, pos(3))),
        Err(Error::Rules(RulesError::NotKing(pos(3))))
    );
    assert_eq!(
        BoardBuilder::empty().try_insert(Piece::new(false, false, pos(30))),
        Err(Error::Rules(RulesError::NotKing(pos(30))))
    );
    // A king may start on a promotion square, and a man on the other side's.
    assert!(BoardBuilder::empty().try_insert(Piece::new(true, true, pos(3))).is_ok());
    assert!(BoardBuilder::empty().try_insert(Piece::new(false, true, pos(30))).is_ok());
}

#[test]
fn remove_from_empty_square_fails() {
    assert_eq!(
        BoardBuilder::empty().try_remove(pos(1)),
        Err(Error::Rules(RulesError::Empty(pos(1))))
    );
}

#[test]
fn removal_frees_room_under_the_limit() {
    let builder = BoardBuilder::default().try_remove(pos(32)).unwrap();
    let builder = builder.try_insert(Piece::new(false, true, pos(17))).unwrap();
    let board = builder.build();
    assert_eq!(board.get_tile(pos(32)), None);
    assert_eq!(board.get_tile(pos(17)), Some(Piece::new(false, true, pos(17))));
}

#[test]
fn default_layout() {
    let board = BoardBuilder::default().build();
    for n in 1..=32u8 {
        let tile = board.get_tile(pos(n));
        if n <= 12 {
            assert_eq!(tile, Some(Piece::new(false, false, pos(n))));
        } else if n >= 21 {
            assert_eq!(tile, Some(Piece::new(false, true, pos(n))));
        } else {
            assert_eq!(tile, None);
        }
    }
}

#[test]
fn template_on_light_square_fails() {
    let mut template = [[0u8; 8]; 8];
    template[0][0] = 1;
    assert_eq!(
        BoardBuilder::try_from_template(template),
        Err(Error::Position(position::Error::WhiteSquare))
    );
}

#[test]
fn template_reports_first_insert_error() {
    let mut template = [[0u8; 8]; 8];
    // A white man on its promotion rank.
    template[0][1] = 1;
    assert_eq!(
        BoardBuilder::try_from_template(template),
        Err(Error::Rules(RulesError::NotKing(pos(1))))
    );
}
