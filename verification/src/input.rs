//! Key chords: a logical key together with a modifier bitmask.

use vstd::prelude::*;

verus! {

/// Modifiers represented using the 4 least significant bits of the given
/// number. Order (from most significant to least) is: shift, ctrl, alt,
/// logo (windows key). For example, `0b1000` is just the shift key.
pub type Modifiers = u8;

/// The logical key of a chord: the letter keys the trie maps, plus the
/// control keys the prompt reacts to.
#[derive(Debug, Copy, Clone, Eq, PartialEq, Structural)]
pub enum KeyCode {
    A,
    B,
    C,
    D,
    E,
    F,
    G,
    H,
    I,
    J,
    K,
    L,
    M,
    N,
    O,
    P,
    Q,
    R,
    S,
    T,
    U,
    V,
    W,
    X,
    Y,
    Z,
    Tab,
    Back,
    Other,
}

/// A chunk of input, containing a key code and modifiers.
#[derive(Debug, Copy, Clone, Eq, PartialEq, Structural)]
pub struct InputChunk(pub KeyCode, pub Modifiers);

/// The display text of a chord: the letter of a letter key, upper case when
/// the shift bit is set, and empty for every other key.
pub open spec fn chord_str(i: InputChunk) -> Seq<char> {
    if i.1 & 8 != 0 {
        match i.0 {
            KeyCode::A => seq!['A'],
            KeyCode::B => seq!['B'],
            KeyCode::C => seq!['C'],
            KeyCode::D => seq!['D'],
            KeyCode::E => seq!['E'],
            KeyCode::F => seq!['F'],
            KeyCode::G => seq!['G'],
            KeyCode::H => seq!['H'],
            KeyCode::I => seq!['I'],
            KeyCode::J => seq!['J'],
            KeyCode::K => seq!['K'],
            KeyCode::L => seq!['L'],
            KeyCode::M => seq!['M'],
            KeyCode::N => seq!['N'],
            KeyCode::O => seq!['O'],
            KeyCode::P => seq!['P'],
            KeyCode::Q => seq!['Q'],
            KeyCode::R => seq!['R'],
            KeyCode::S => seq!['S'],
            KeyCode::T => seq!['T'],
            KeyCode::U => seq!['U'],
            KeyCode::V => seq!['V'],
            KeyCode::W => seq!['W'],
            KeyCode::X => seq!['X'],
            KeyCode::Y => seq!['Y'],
            KeyCode::Z => seq!['Z'],
            _ => seq![],
        }
    } else {
        match i.0 {
            KeyCode::A => seq!['a'],
            KeyCode::B => seq!['b'],
            KeyCode::C => seq!['c'],
            KeyCode::D => seq!['d'],
            KeyCode::E => seq!['e'],
            KeyCode::F => seq!['f'],
            KeyCode::G => seq!['g'],
            KeyCode::H => seq!['h'],
            KeyCode::I => seq!['i'],
            KeyCode::J => seq!['j'],
            KeyCode::K => seq!['k'],
            KeyCode::L => seq!['l'],
            KeyCode::M => seq!['m'],
            KeyCode::N => seq!['n'],
            KeyCode::O => seq!['o'],
            KeyCode::P => seq!['p'],
            KeyCode::Q => seq!['q'],
            KeyCode::R => seq!['r'],
            KeyCode::S => seq!['s'],
            KeyCode::T => seq!['t'],
            KeyCode::U => seq!['u'],
            KeyCode::V => seq!['v'],
            KeyCode::W => seq!['w'],
            KeyCode::X => seq!['x'],
            KeyCode::Y => seq!['y'],
            KeyCode::Z => seq!['z'],
            _ => seq![],
        }
    }
}

impl InputChunk {
    /// Convert this input chunk to a string.
    pub fn to_str(&self) -> (r: &'static str)
        ensures
            r@ == chord_str(*self),
    {
        let shifted = self.1 & 8 > 0;
        match self.0 {
            KeyCode::A => {
                proof {
                    reveal_strlit("A");
                    reveal_strlit("a");
                }
                if shifted {
                    "A"
                } else {
                    "a"
                }
            },
            KeyCode::B => {
                proof {
                    reveal_strlit("B");
                    reveal_strlit("b");
                }
                if shifted {
                    "B"
                } else {
                    "b"
                }
            },
            KeyCode::C => {
                proof {
                    reveal_strlit("C");
                    reveal_strlit("c");
                }
                if shifted {
                    "C"
                } else {
                    "c"
                }
            },
            KeyCode::D => {
                proof {
                    reveal_strlit("D");
                    reveal_strlit("d");
                }
                if shifted {
                    "D"
                } else {
                    "d"
                }
            },
            KeyCode::E => {
                proof {
                    reveal_strlit("E");
                    reveal_strlit("e");
                }
                if shifted {
                    "E"
                } else {
                    "e"
                }
            },
            KeyCode::F => {
                proof {
                    reveal_strlit("F");
                    reveal_strlit("f");
                }
                if shifted {
                    "F"
                } else {
                    "f"
                }
            },
            KeyCode::G => {
                proof {
                    reveal_strlit("G");
                    reveal_strlit("g");
                }
                if shifted {
                    "G"
                } else {
                    "g"
                }
            },
            KeyCode::H => {
                proof {
                    reveal_strlit("H");
                    reveal_strlit("h");
                }
                if shifted {
                    "H"
                } else {
                    "h"
                }
            },
            KeyCode::I => {
                proof {
                    reveal_strlit("I");
                    reveal_strlit("i");
                }
                if shifted {
                    "I"
                } else {
                    "i"
                }
            },
            KeyCode::J => {
                proof {
                    reveal_strlit("J");
                    reveal_strlit("j");
                }
                if shifted {
                    "J"
                } else {
                    "j"
                }
            },
            KeyCode::K => {
                proof {
                    reveal_strlit("K");
                    reveal_strlit("k");
                }
                if shifted {
                    "K"
                } else {
                    "k"
                }
            },
            KeyCode::L => {
                proof {
                    reveal_strlit("L");
                    reveal_strlit("l");
                }
                if shifted {
                    "L"
                } else {
                    "l"
                }
            },
            KeyCode::M => {
                proof {
                    reveal_strlit("M");
                    reveal_strlit("m");
                }
                if shifted {
                    "M"
                } else {
                    "m"
                }
            },
            KeyCode::N => {
                proof {
                    reveal_strlit("N");
                    reveal_strlit("n");
                }
                if shifted {
                    "N"
                } else {
                    "n"
                }
            },
            KeyCode::O => {
                proof {
                    reveal_strlit("O");
                    reveal_strlit("o");
                }
                if shifted {
                    "O"
                } else {
                    "o"
                }
            },
            KeyCode::P => {
                proof {
                    reveal_strlit("P");
                    reveal_strlit("p");
                }
                if shifted {
                    "P"
                } else {
                    "p"
                }
            },
            KeyCode::Q => {
                proof {
                    reveal_strlit("Q");
                    reveal_strlit("q");
                }
                if shifted {
                    "Q"
                } else {
                    "q"
                }
            },
            KeyCode::R => {
                proof {
                    reveal_strlit("R");
                    reveal_strlit("r");
                }
                if shifted {
                    "R"
                } else {
                    "r"
                }
            },
            KeyCode::S => {
                proof {
                    reveal_strlit("S");
                    reveal_strlit("s");
                }
                if shifted {
                    "S"
                } else {
                    "s"
                }
            },
            KeyCode::T => {
                proof {
                    reveal_strlit("T");
                    reveal_strlit("t");
                }
                if shifted {
                    "T"
                } else {
                    "t"
                }
            },
            KeyCode::U => {
                proof {
                    reveal_strlit("U");
                    reveal_strlit("u");
                }
                if shifted {
                    "U"
                } else {
                    "u"
                }
            },
            KeyCode::V => {
                proof {
                    reveal_strlit("V");
                    reveal_strlit("v");
                }
                if shifted {
                    "V"
                } else {
                    "v"
                }
            },
            KeyCode::W => {
                proof {
                    reveal_strlit("W");
                    reveal_strlit("w");
                }
                if shifted {
                    "W"
                } else {
                    "w"
                }
            },
            KeyCode::X => {
                proof {
                    reveal_strlit("X");
                    reveal_strlit("x");
                }
                if shifted {
                    "X"
                } else {
                    "x"
                }
            },
            KeyCode::Y => {
                proof {
                    reveal_strlit("Y");
                    reveal_strlit("y");
                }
                if shifted {
                    "Y"
                } else {
                    "y"
                }
            },
            KeyCode::Z => {
                proof {
                    reveal_strlit("Z");
                    reveal_strlit("z");
                }
                if shifted {
                    "Z"
                } else {
                    "z"
                }
            },
            _ => {
                proof {
                    reveal_strlit("");
                }
                ""
            },
        }
    }
}

/// Pack the four modifier states into the documented bitmask.
pub fn mods_to_bitflags(shift: bool, ctrl: bool, alt: bool, logo: bool) -> (r: u8)
    ensures
        r == (if shift {
            8u8
        } else {
            0u8
        }) + (if ctrl {
            4u8
        } else {
            0u8
        }) + (if alt {
            2u8
        } else {
            0u8
        }) + (if logo {
            1u8
        } else {
            0u8
        }),
{
    (if shift {
        8u8
    } else {
        0u8
    }) + (if ctrl {
        4u8
    } else {
        0u8
    }) + (if alt {
        2u8
    } else {
        0u8
    }) + (if logo {
        1u8
    } else {
        0u8
    })
}

} // verus!
