use anre::charposition::{CharWithPosition, CharsWithPositionIter};
use anre::location::Location;

#[test]
fn test_chars_with_position_iter() {
    {
        let mut char_position_iter = CharsWithPositionIter::new(0, "a\nmn\nxyz");

        assert_eq!(
            char_position_iter.next(),
            Some(CharWithPosition::new(
                'a',
                Location::new_position(0, 0, 0, 0)
            ))
        );

        assert_eq!(
            char_position_iter.next(),
            Some(CharWithPosition::new(
                '\n',
                Location::new_position(0, 1, 0, 1)
            ))
        );

        assert_eq!(
            char_position_iter.next(),
            Some(CharWithPosition::new(
                'm',
                Location::new_position(0, 2, 1, 0)
            ))
        );

        assert_eq!(
            char_position_iter.next(),
            Some(CharWithPosition::new(
                'n',
                Location::new_position(0, 3, 1, 1)
            ))
        );

        assert_eq!(
            char_position_iter.next(),
            Some(CharWithPosition::new(
                '\n',
                Location::new_position(0, 4, 1, 2)
            ))
        );

        assert_eq!(
            char_position_iter.next(),
            Some(CharWithPosition::new(
                'x',
                Location::new_position(0, 5, 2, 0)
            ))
        );

        assert_eq!(
            char_position_iter.next(),
            Some(CharWithPosition::new(
                'y',
                Location::new_position(0, 6, 2, 1)
            ))
        );

        assert_eq!(
            char_position_iter.next(),
            Some(CharWithPosition::new(
                'z',
                Location::new_position(0, 7, 2, 2)
            ))
        );

        assert!(char_position_iter.next().is_none());
    }

    {
        let mut char_position_iter = CharsWithPositionIter::new(1, "\n\r\n\n");

        assert_eq!(
            char_position_iter.next(),
            Some(CharWithPosition::new(
                '\n',
                Location::new_position(1, 0, 0, 0)
            ))
        );

        assert_eq!(
            char_position_iter.next(),
            Some(CharWithPosition::new(
                '\r',
                Location::new_position(1, 1, 1, 0)
            ))
        );

        assert_eq!(
            char_position_iter.next(),
            Some(CharWithPosition::new(
                '\n',
                Location::new_position(1, 2, 1, 1)
            ))
        );

        assert_eq!(
            char_position_iter.next(),
            Some(CharWithPosition::new(
                '\n',
                Location::new_position(1, 3, 2, 0)
            ))
        );

        assert!(char_position_iter.next().is_none());
    }
}

