//! Cube Conundrum: which games a fixed bag of cubes allows, and the
//! power of each game's minimal bag.

use vstd::prelude::*;
use crate::multi_line_parser::MultiLineParser;
use crate::parser::{digit_run_end, find_from, lemma_digit_run_end, Parser};
use crate::text::{
    all_digits, chars_to_string, is_digit, lemma_seq_value_nonneg, mul_sat_u64, seq_value,
    u64_to_string,
};

verus! {

/// One game: its id and the revealed sets of cubes.
pub struct Game {
    pub sets: Vec<Vec<(Qube, u32)>>,
    pub game: u32,
}

/// The largest simultaneous count of each colour a game reveals.
pub struct TotalQubes {
    pub red: u32,
    pub green: u32,
    pub blue: u32,
}

/// A cube colour.
pub enum Qube {
    Red,
    Green,
    Blue,
}

impl Qube {
    /// The colour named by `s`, which must be one of the three colour
    /// names: any other name is a fatal parse error, so callers rule it
    /// out first.
    pub fn create(s: String) -> (r: Qube)
        requires
            s@ == "red"@ || s@ == "green"@ || s@ == "blue"@,
        ensures
            s@ == "red"@ ==> r == Qube::Red,
            s@ == "green"@ ==> r == Qube::Green,
            s@ == "blue"@ ==> r == Qube::Blue,
    {
        proof {
            reveal_strlit("red");
            reveal_strlit("green");
            reveal_strlit("blue");
            assert("red"@.len() == 3);
            assert("green"@.len() == 5);
            assert("blue"@.len() == 4);
            assert("green"@ != "blue"@ && "green"@ != "red"@ && "blue"@ != "red"@);
        }
        let green = "green".to_owned();
        let blue = "blue".to_owned();
        if s == green {
            Qube::Green
        } else if s == blue {
            Qube::Blue
        } else {
            Qube::Red
        }
    }
}

/// Total cubes of colour `q` revealed in one set.
pub open spec fn color_count(set: Seq<(Qube, u32)>, q: Qube) -> int
    decreases set.len(),
{
    if set.len() == 0 {
        0
    } else {
        color_count(set.drop_last(), q) + if set.last().0 == q {
            set.last().1 as int
        } else {
            0int
        }
    }
}

/// The largest per-set total of colour `q` over a game's sets.
pub open spec fn max_color(sets: Seq<Vec<(Qube, u32)>>, q: Qube) -> int
    decreases sets.len(),
{
    if sets.len() == 0 {
        0
    } else {
        let rest = max_color(sets.drop_last(), q);
        let cur = color_count(sets.last()@, q);
        if cur > rest {
            cur
        } else {
            rest
        }
    }
}

/// A colour total is never negative.
pub proof fn lemma_color_count_nonneg(set: Seq<(Qube, u32)>, q: Qube)
    ensures
        color_count(set, q) >= 0,
    decreases set.len(),
{
    if set.len() > 0 {
        lemma_color_count_nonneg(set.drop_last(), q);
    }
}

/// `v` squeezed into the unsigned 32-bit range.
pub open spec fn clamp32(v: int) -> int {
    if v > u32::MAX {
        u32::MAX as int
    } else {
        v
    }
}

/// Whether `c` is an ASCII lower-case letter.
fn is_lower(c: char) -> bool {
    let u = c as u32;
    97 <= u && u <= 122
}

impl Game {
    /// Reads one `Game n: a colour, b colour; ...` line. The game id is
    /// the digit run after the first `Game ` when a colon closes it and
    /// its value fits, and zero otherwise. A count whose colour word is
    /// no colour name is dropped, which a well-formed line never holds.
    pub fn from_line(line: &str) -> (r: Game)
        ensures
            ({
                let t = line@;
                let f = find_from(t, "Game "@, 0);
                let start = if f >= 0 {
                    f + "Game "@.len()
                } else {
                    t.len() as int
                };
                let e = digit_run_end(t, start);
                let v = seq_value(t.subrange(start, e));
                let id_ok = e < t.len() && t[e] == ':' && e > start && v <= u32::MAX;
                r.game == if id_ok {
                    v
                } else {
                    0int
                }
            }),
    {
        let mut p = Parser::new(line);
        proof {
            reveal_strlit("Game ");
        }
        p.advance_to("Game ");
        let ghost start = p.at();
        proof {
            lemma_digit_run_end(line@, start);
            let e = digit_run_end(line@, start);
            if e > start {
                assert(all_digits(line@.subrange(start, e)));
                lemma_seq_value_nonneg(line@.subrange(start, e));
            }
        }
        let game = match p.match_number_up_to(':') {
            Option::Some(v) => {
                if 0 <= v && v <= u32::MAX as i64 {
                    v as u32
                } else {
                    0
                }
            },
            Option::None => 0,
        };
        let mut sets: Vec<Vec<(Qube, u32)>> = Vec::new();
        let mut set: Vec<(Qube, u32)> = Vec::new();
        let ghost t0 = p.text();
        loop
            invariant
                p.wf(),
                p.text() == t0,
            decreases p.text().len() - p.at(),
        {
            let c = match p.peek() {
                Option::Some(c) => *c,
                Option::None => {
                    break;
                },
            };
            if is_digit(c) {
                let number = match p.match_number() {
                    Option::Some(v) => {
                        if 0 <= v && v <= u32::MAX as i64 {
                            v as u32
                        } else {
                            0
                        }
                    },
                    Option::None => 0,
                };
                let mut word: Vec<char> = Vec::new();
                let ghost at1 = p.at();
                loop
                    invariant
                        p.wf(),
                        p.text() == t0,
                        p.at() >= at1,
                    decreases p.text().len() - p.at(),
                {
                    let w = match p.peek() {
                        Option::Some(w) => *w,
                        Option::None => {
                            break;
                        },
                    };
                    if is_lower(w) {
                        word.push(w);
                        p.pop();
                    } else if w == ' ' && word.len() == 0 {
                        p.pop();
                    } else {
                        break;
                    }
                }
                let word_s = chars_to_string(&word);
                let is_red = word_s == "red".to_owned();
                let is_green = word_s == "green".to_owned();
                let is_blue = word_s == "blue".to_owned();
                if is_red || is_green || is_blue {
                    let qube = Qube::create(word_s);
                    set.push((qube, number));
                }
            } else if c == ';' {
                p.pop();
                sets.push(set);
                set = Vec::new();
            } else {
                p.pop();
            }
        }
        sets.push(set);
        Game { sets, game }
    }
}

impl TotalQubes {
    /// The largest count of each colour over the game's sets; a total past
    /// the unsigned 32-bit range stops there.
    pub fn create(input: &Game) -> (r: TotalQubes)
        ensures
            r.red == clamp32(max_color(input.sets@, Qube::Red)),
            r.green == clamp32(max_color(input.sets@, Qube::Green)),
            r.blue == clamp32(max_color(input.sets@, Qube::Blue)),
    {
        let ghost sets = input.sets@;
        let mut red: u32 = 0;
        let mut green: u32 = 0;
        let mut blue: u32 = 0;
        let mut i: usize = 0;
        proof {
            assert(sets.take(0) =~= Seq::<Vec<(Qube, u32)>>::empty());
        }
        while i < input.sets.len()
            invariant
                i <= sets.len(),
                input.sets@ == sets,
                red == clamp32(max_color(sets.take(i as int), Qube::Red)),
                green == clamp32(max_color(sets.take(i as int), Qube::Green)),
                blue == clamp32(max_color(sets.take(i as int), Qube::Blue)),
            decreases sets.len() - i,
        {
            let set = &input.sets[i];
            let ghost cells = set@;
            let mut local_red: u32 = 0;
            let mut local_green: u32 = 0;
            let mut local_blue: u32 = 0;
            let mut j: usize = 0;
            proof {
                assert(cells.take(0) =~= Seq::<(Qube, u32)>::empty());
            }
            while j < set.len()
                invariant
                    j <= cells.len(),
                    set@ == cells,
                    local_red == clamp32(color_count(cells.take(j as int), Qube::Red)),
                    local_green == clamp32(color_count(cells.take(j as int), Qube::Green)),
                    local_blue == clamp32(color_count(cells.take(j as int), Qube::Blue)),
                decreases cells.len() - j,
            {
                let (qube, number) = &set[j];
                proof {
                    assert(cells.take(j + 1).drop_last() =~= cells.take(j as int));
                    assert(cells.take(j + 1).last() == cells[j as int]);
                    lemma_color_count_nonneg(cells.take(j as int), Qube::Red);
                    lemma_color_count_nonneg(cells.take(j as int), Qube::Green);
                    lemma_color_count_nonneg(cells.take(j as int), Qube::Blue);
                }
                match qube {
                    Qube::Red => {
                        local_red = local_red.saturating_add(*number);
                    },
                    Qube::Green => {
                        local_green = local_green.saturating_add(*number);
                    },
                    Qube::Blue => {
                        local_blue = local_blue.saturating_add(*number);
                    },
                }
                j = j + 1;
            }
            proof {
                assert(cells.take(cells.len() as int) =~= cells);
                assert(sets.take(i + 1).drop_last() =~= sets.take(i as int));
                assert(sets.take(i + 1).last() == sets[i as int]);
                lemma_color_count_nonneg(cells, Qube::Red);
                lemma_color_count_nonneg(cells, Qube::Green);
                lemma_color_count_nonneg(cells, Qube::Blue);
            }
            if local_red > red {
                red = local_red;
            }
            if local_green > green {
                green = local_green;
            }
            if local_blue > blue {
                blue = local_blue;
            }
            i = i + 1;
        }
        proof {
            assert(sets.take(sets.len() as int) =~= sets);
        }
        TotalQubes { red, green, blue }
    }
}

/// The games of the input, one per non-empty line.
fn parse_games(input: &String) -> Vec<Game> {
    let grid = MultiLineParser::new(input.as_str());
    let nrows = grid.len();
    let mut games: Vec<Game> = Vec::new();
    let mut i: usize = 0;
    while i < nrows
        invariant
            i <= nrows,
            nrows == grid.rows().len(),
        decreases nrows - i,
    {
        let line = chars_to_string(grid.row_chars(i));
        games.push(Game::from_line(line.as_str()));
        i = i + 1;
    }
    games
}

/// Sum of the ids of the games possible with 12 red, 13 green and 14 blue
/// cubes.
pub fn part1(input: String) -> String {
    let games = parse_games(&input);
    let total_game = Game {
        sets: vec![vec![(Qube::Red, 12u32), (Qube::Blue, 14u32), (Qube::Green, 13u32)]],
        game: 0,
    };
    let total = TotalQubes::create(&total_game);
    let mut sum: u32 = 0;
    let mut i: usize = 0;
    while i < games.len()
        invariant
            i <= games@.len(),
        decreases games@.len() - i,
    {
        let total_qube = TotalQubes::create(&games[i]);
        if total_qube.red <= total.red && total_qube.green <= total.green && total_qube.blue
            <= total.blue {
            sum = sum.saturating_add(games[i].game);
        }
        i = i + 1;
    }
    u64_to_string(sum as u64)
}

/// Sum of the powers of the minimal cube sets of all games.
pub fn part2(input: String) -> String {
    let games = parse_games(&input);
    let mut sum: u64 = 0;
    let mut i: usize = 0;
    while i < games.len()
        invariant
            i <= games@.len(),
        decreases games@.len() - i,
    {
        let total_qube = TotalQubes::create(&games[i]);
        let power = mul_sat_u64(
            mul_sat_u64(total_qube.red as u64, total_qube.green as u64),
            total_qube.blue as u64,
        );
        sum = sum.saturating_add(power);
        i = i + 1;
    }
    u64_to_string(sum)
}

} // verus!
