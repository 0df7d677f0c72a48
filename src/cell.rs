use vstd::prelude::*;

verus! {

/// What a cell holds: a mine, nothing, or the number of mined neighbours.
#[derive(PartialEq, Eq, Structural, Copy, Clone, Debug)]
pub enum CellValue {
    Bomb,
    Empty,
    BombsAround(u8),
}

/// The decimal digit `d`, for `d < 10`.
pub open spec fn digit_char(d: nat) -> char {
    if d == 0 { '0' } else if d == 1 { '1' } else if d == 2 { '2' } else if d == 3 { '3' }
    else if d == 4 { '4' } else if d == 5 { '5' } else if d == 6 { '6' } else if d == 7 { '7' }
    else if d == 8 { '8' } else { '9' }
}

/// The decimal writing of `n`, without leading zeros.
pub open spec fn decimal(n: nat) -> Seq<char>
    decreases n,
{
    if n < 10 {
        seq![digit_char(n)]
    } else {
        decimal(n / 10) + seq![digit_char(n % 10)]
    }
}

fn push_digit(s: &mut String, d: u8)
    requires
        d < 10,
    ensures
        final(s)@ == old(s)@.push(digit_char(d as nat)),
{
    let t: &str = if d == 0 { "0" } else if d == 1 { "1" } else if d == 2 { "2" } else if d == 3 { "3" }
        else if d == 4 { "4" } else if d == 5 { "5" } else if d == 6 { "6" } else if d == 7 { "7" }
        else if d == 8 { "8" } else { "9" };
    proof {
        reveal_strlit("0");
        reveal_strlit("1");
        reveal_strlit("2");
        reveal_strlit("3");
        reveal_strlit("4");
        reveal_strlit("5");
        reveal_strlit("6");
        reveal_strlit("7");
        reveal_strlit("8");
        reveal_strlit("9");
        assert(t@ =~= seq![digit_char(d as nat)]);
    }
    s.append(t);
}

/// The state of one position of the board.
#[derive(Copy, Clone, Debug)]
pub struct Cell {
    pub shown: bool,
    pub exploded: bool,
    pub flagged: bool,
    pub value: CellValue,
}

impl Cell {
    pub open spec fn mined(self) -> bool {
        self.value == CellValue::Bomb
    }

    /// The neighbour-mine count: `n` for `BombsAround(n)`, else zero.
    pub open spec fn count(self) -> nat {
        match self.value {
            CellValue::BombsAround(n) => n as nat,
            _ => 0,
        }
    }

    pub open spec fn fresh() -> Cell {
        Cell { shown: false, exploded: false, flagged: false, value: CellValue::Empty }
    }

    pub fn new() -> (r: Self)
        ensures
            r == Cell::fresh(),
    {
        Cell { shown: false, exploded: false, flagged: false, value: CellValue::Empty }
    }

    pub fn is_shown(&self) -> (r: bool)
        ensures
            r == self.shown,
    {
        self.shown
    }

    pub fn is_exploded(&self) -> (r: bool)
        ensures
            r == self.exploded,
    {
        self.exploded
    }

    pub fn is_flagged(&self) -> (r: bool)
        ensures
            r == self.flagged,
    {
        self.flagged
    }

    pub fn is_mined(&self) -> (r: bool)
        ensures
            r == self.mined(),
    {
        self.value == CellValue::Bomb
    }

    pub fn explode(&mut self)
        ensures
            *final(self) == (Cell { exploded: true, ..*old(self) }),
    {
        self.exploded = true;
    }

    pub fn bombs_around(&self) -> (r: u8)
        ensures
            r as nat == self.count(),
    {
        match self.value {
            CellValue::BombsAround(num) => num,
            _ => 0,
        }
    }

    pub fn show(&mut self)
        ensures
            *final(self) == (Cell { shown: true, ..*old(self) }),
    {
        self.shown = true;
    }

    pub fn toggle_flag(&mut self)
        ensures
            *final(self) == (Cell { flagged: !old(self).flagged, ..*old(self) }),
    {
        self.flagged = !self.flagged;
    }

    pub fn plant_bomb(&mut self)
        ensures
            *final(self) == (Cell { value: CellValue::Bomb, ..*old(self) }),
    {
        self.value = CellValue::Bomb;
    }

    /// Counts one more mined neighbour; a mined cell keeps its mine.
    pub fn inc_bombs_around(&mut self)
        requires
            old(self).count() < 255,
        ensures
            old(self).mined() ==> *final(self) == *old(self),
            !old(self).mined() ==> *final(self) == (Cell {
                value: CellValue::BombsAround((old(self).count() + 1) as u8),
                ..*old(self)
            }),
    {
        if self.value != CellValue::Bomb {
            let bombs_around = self.bombs_around();
            self.value = CellValue::BombsAround(bombs_around + 1);
        }
    }
    /// The glyph of the cell, by precedence: flag, hidden, empty, number, exploded mine, mine.
    pub open spec fn glyph(self) -> Seq<char> {
        if self.flagged {
            "🏳 "@
        } else if !self.shown {
            "🟧 "@
        } else if self.value == CellValue::Empty {
            "⬜ "@
        } else if !self.mined() {
            seq![' '] + decimal(self.count()) + seq![' ']
        } else if self.exploded {
            "💥 "@
        } else {
            "💣 "@
        }
    }

    /// The text that a board shows for this cell.
    pub fn render(&self) -> (r: String)
        ensures
            r@ == self.glyph(),
    {
        if self.flagged {
            return "🏳 ".to_owned();
        }
        if !self.shown {
            return "🟧 ".to_owned();
        }
        match self.value {
            CellValue::Empty => "⬜ ".to_owned(),
            CellValue::BombsAround(num) => {
                let mut out = " ".to_owned();
                proof {
                    reveal_strlit(" ");
                }
                if num >= 100 {
                    push_digit(&mut out, num / 100);
                    push_digit(&mut out, (num / 10) % 10);
                    push_digit(&mut out, num % 10);
                    proof {
                        let n = num as nat;
                        assert(n / 10 / 10 == n / 100);
                        assert(decimal(n / 100) == seq![digit_char(n / 100)]);
                        assert(decimal(n / 10) == decimal(n / 100) + seq![digit_char((n / 10) % 10)]);
                        assert(decimal(n) == decimal(n / 10) + seq![digit_char(n % 10)]);
                        assert(decimal(n) =~= seq![digit_char((num / 100) as nat), digit_char(((num / 10) % 10) as nat), digit_char((num % 10) as nat)]);
                    }
                } else if num >= 10 {
                    push_digit(&mut out, num / 10);
                    push_digit(&mut out, num % 10);
                    proof {
                        let n = num as nat;
                        assert(decimal(n / 10) == seq![digit_char(n / 10)]);
                        assert(decimal(n) == decimal(n / 10) + seq![digit_char(n % 10)]);
                        assert(decimal(n) =~= seq![digit_char((num / 10) as nat), digit_char((num % 10) as nat)]);
                    }
                } else {
                    push_digit(&mut out, num);
                }
                out.append(" ");
                proof {
                    assert(out@ =~= seq![' '] + decimal(num as nat) + seq![' ']);
                }
                out
            },
            CellValue::Bomb => {
                if self.exploded {
                    "💥 ".to_owned()
                } else {
                    "💣 ".to_owned()
                }
            },
        }
    }
}

impl Default for Cell {
    fn default() -> (r: Self)
        ensures
            r == Cell::fresh(),
    {
        Cell::new()
    }
}

} // verus!
