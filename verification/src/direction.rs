//! Manim's unit directions (`UP`, `DL`, ...) and their names.
use vstd::prelude::*;

use crate::text::{is_lit, lower_seq, lower_vec, str_chars};

verus! {

/// A direction on the unit grid: each component is -1, 0 or 1
/// (`UP` is `(0, 1)`, `DL` is `(-1, -1)`, `ORIGIN` is `(0, 0)`).
#[derive(Clone, Copy, Debug, PartialEq, Eq, Structural)]
pub struct Dir {
    pub x: i8,
    pub y: i8,
}

pub open spec fn dir(x: i8, y: i8) -> Dir {
    Dir { x, y }
}

/// The direction a lowercased name selects.
pub open spec fn direction_named(k: Seq<char>) -> Option<Dir> {
    if k == "up"@ {
        Some(dir(0, 1))
    } else if k == "down"@ {
        Some(dir(0, -1i8))
    } else if k == "left"@ {
        Some(dir(-1i8, 0))
    } else if k == "right"@ {
        Some(dir(1, 0))
    } else if k == "ul"@ || k == "up_left"@ {
        Some(dir(-1i8, 1))
    } else if k == "ur"@ || k == "up_right"@ {
        Some(dir(1, 1))
    } else if k == "dl"@ || k == "down_left"@ {
        Some(dir(-1i8, -1i8))
    } else if k == "dr"@ || k == "down_right"@ {
        Some(dir(1, -1i8))
    } else if k == "origin"@ || k == "center"@ {
        Some(dir(0, 0))
    } else {
        None
    }
}

/// Parse a direction name, ignoring case. `None` for an unknown name.
///
/// No direction name holds a letter that a non-ASCII char lowercases to,
/// so folding ASCII letters only accepts the same strings as full Unicode
/// lowercasing.
pub fn parse_direction(s: &str) -> (d: Option<Dir>)
    ensures
        d == direction_named(lower_seq(s@)),
{
    let k = lower_vec(&str_chars(s));
    if is_lit(&k, "up") {
        Some(Dir { x: 0, y: 1 })
    } else if is_lit(&k, "down") {
        Some(Dir { x: 0, y: -1 })
    } else if is_lit(&k, "left") {
        Some(Dir { x: -1, y: 0 })
    } else if is_lit(&k, "right") {
        Some(Dir { x: 1, y: 0 })
    } else if is_lit(&k, "ul") || is_lit(&k, "up_left") {
        Some(Dir { x: -1, y: 1 })
    } else if is_lit(&k, "ur") || is_lit(&k, "up_right") {
        Some(Dir { x: 1, y: 1 })
    } else if is_lit(&k, "dl") || is_lit(&k, "down_left") {
        Some(Dir { x: -1, y: -1 })
    } else if is_lit(&k, "dr") || is_lit(&k, "down_right") {
        Some(Dir { x: 1, y: -1 })
    } else if is_lit(&k, "origin") || is_lit(&k, "center") {
        Some(Dir { x: 0, y: 0 })
    } else {
        None
    }
}

/// The opposite direction.
pub open spec fn opposite(d: Dir) -> Dir {
    Dir { x: (-d.x) as i8, y: (-d.y) as i8 }
}

/// The four sides are unit steps, `up` along +y and `right` along +x, with
/// `down` and `left` their opposites; each diagonal, long or short name,
/// takes its horizontal part from `left`/`right` and its vertical part from
/// `up`/`down`; `origin` and `center` are the zero step.
pub proof fn law_direction_names()
    ensures
        direction_named("up"@) == Some(dir(0, 1)),
        direction_named("right"@) == Some(dir(1, 0)),
        direction_named("down"@) == Some(opposite(direction_named("up"@).unwrap())),
        direction_named("left"@) == Some(opposite(direction_named("right"@).unwrap())),
        direction_named("up_left"@) == Some(
            dir(direction_named("left"@).unwrap().x, direction_named("up"@).unwrap().y),
        ),
        direction_named("up_right"@) == Some(
            dir(direction_named("right"@).unwrap().x, direction_named("up"@).unwrap().y),
        ),
        direction_named("down_left"@) == Some(
            dir(direction_named("left"@).unwrap().x, direction_named("down"@).unwrap().y),
        ),
        direction_named("down_right"@) == Some(
            dir(direction_named("right"@).unwrap().x, direction_named("down"@).unwrap().y),
        ),
        direction_named("ul"@) == direction_named("up_left"@),
        direction_named("ur"@) == direction_named("up_right"@),
        direction_named("dl"@) == direction_named("down_left"@),
        direction_named("dr"@) == direction_named("down_right"@),
        direction_named("origin"@) == Some(dir(0, 0)),
        direction_named("center"@) == Some(dir(0, 0)),
{
    reveal_strlit("up");
    reveal_strlit("down");
    reveal_strlit("left");
    reveal_strlit("right");
    reveal_strlit("ul");
    reveal_strlit("up_left");
    reveal_strlit("ur");
    reveal_strlit("up_right");
    reveal_strlit("dl");
    reveal_strlit("down_left");
    reveal_strlit("dr");
    reveal_strlit("down_right");
    reveal_strlit("origin");
    reveal_strlit("center");
    assert("down"@.len() == 4 && "up"@.len() == 2 && "right"@.len() == 5 && "left"@.len() == 4);
    assert("down"@ != "up"@);
    assert("ul"@.len() == 2 && "ur"@.len() == 2 && "dl"@.len() == 2 && "dr"@.len() == 2);
    assert("up_left"@.len() == 7 && "up_right"@.len() == 8 && "down_left"@.len() == 9
        && "down_right"@.len() == 10);
    assert("origin"@.len() == 6 && "center"@.len() == 6);
    assert("right"@ != "up"@ && "right"@ != "down"@ && "right"@ != "left"@);
    assert("down"@ != "left"@) by {
        assert("down"@[0] != "left"@[0]);
    }
    assert("ul"@ != "up"@) by {
        assert("ul"@[1] != "up"@[1]);
    }
    assert("ur"@ != "up"@ && "ur"@ != "ul"@) by {
        assert("ur"@[1] != "up"@[1] && "ur"@[1] != "ul"@[1]);
    }
    assert("dl"@ != "up"@ && "dl"@ != "ul"@ && "dl"@ != "ur"@) by {
        assert("dl"@[0] != "up"@[0] && "dl"@[0] != "ul"@[0] && "dl"@[0] != "ur"@[0]);
    }
    assert("dr"@ != "up"@ && "dr"@ != "ul"@ && "dr"@ != "ur"@ && "dr"@ != "dl"@) by {
        assert("dr"@[0] != "up"@[0] && "dr"@[0] != "ul"@[0] && "dr"@[0] != "ur"@[0]);
        assert("dr"@[1] != "dl"@[1]);
    }
    assert("center"@ != "origin"@) by {
        assert("center"@[0] != "origin"@[0]);
    }
}

} // verus!
