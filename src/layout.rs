use vstd::prelude::*;

use crate::rows::{copy_cell, Cell};
use crate::strmap::{entries_map, StrMap};

verus! {

/// Layout of a database view.
#[derive(Debug, Clone, Copy, PartialEq, Eq, Structural)]
pub enum DatabaseLayout {
    Grid,
    Board,
    Calendar,
}

/// A layout name that is none of `"0"`, `"1"`, `"2"`.
#[derive(Debug)]
pub struct InvalidLayout;

/// The number that stands for a layout.
pub open spec fn layout_number(l: DatabaseLayout) -> i64 {
    match l {
        DatabaseLayout::Grid => 0,
        DatabaseLayout::Board => 1,
        DatabaseLayout::Calendar => 2,
    }
}

/// The name that stands for a layout.
pub open spec fn layout_name(l: DatabaseLayout) -> Seq<char> {
    match l {
        DatabaseLayout::Grid => "0"@,
        DatabaseLayout::Board => "1"@,
        DatabaseLayout::Calendar => "2"@,
    }
}

impl DatabaseLayout {
    pub fn is_board(&self) -> (r: bool)
        ensures
            r == (*self == DatabaseLayout::Board),
    {
        match self {
            DatabaseLayout::Board => true,
            _ => false,
        }
    }

    /// The layout's number.
    pub fn to_i64(&self) -> (r: i64)
        ensures
            r == layout_number(*self),
    {
        match self {
            DatabaseLayout::Grid => 0,
            DatabaseLayout::Board => 1,
            DatabaseLayout::Calendar => 2,
        }
    }

    /// The layout of a number; an unknown number reads as `Grid`.
    pub fn from_i64(value: i64) -> (r: DatabaseLayout)
        ensures
            0 <= value <= 2 ==> layout_number(r) == value,
            !(0 <= value <= 2) ==> r == DatabaseLayout::Grid,
    {
        if value == 1 {
            DatabaseLayout::Board
        } else if value == 2 {
            DatabaseLayout::Calendar
        } else {
            DatabaseLayout::Grid
        }
    }

    /// The layout's name: its number as text.
    pub fn as_str(&self) -> (r: &'static str)
        ensures
            r@ == layout_name(*self),
    {
        match self {
            DatabaseLayout::Grid => "0",
            DatabaseLayout::Board => "1",
            DatabaseLayout::Calendar => "2",
        }
    }

    /// The layout of a name, the inverse of `as_str`.
    pub fn from_name(s: &String) -> (r: Result<DatabaseLayout, InvalidLayout>)
        ensures
            r matches Ok(l) ==> s@ == layout_name(l),
            r is Err ==> s@ != layout_name(DatabaseLayout::Grid) && s@ != layout_name(
                DatabaseLayout::Board,
            ) && s@ != layout_name(DatabaseLayout::Calendar),
    {
        if *s == String::from_str("0") {
            Ok(DatabaseLayout::Grid)
        } else if *s == String::from_str("1") {
            Ok(DatabaseLayout::Board)
        } else if *s == String::from_str("2") {
            Ok(DatabaseLayout::Calendar)
        } else {
            Err(InvalidLayout)
        }
    }
}

impl Default for DatabaseLayout {
    fn default() -> (r: DatabaseLayout)
        ensures
            r == DatabaseLayout::Grid,
    {
        DatabaseLayout::Grid
    }
}

pub open spec fn is_layout_name(k: Seq<char>) -> bool {
    k == layout_name(DatabaseLayout::Grid) || k == layout_name(DatabaseLayout::Board) || k
        == layout_name(DatabaseLayout::Calendar)
}

/// The settings of each layout, keyed by layout name.
pub struct LayoutSettings(pub StrMap<Cell>);

pub open spec fn settings_view(m: Map<Seq<char>, Cell>) -> Map<Seq<char>, Map<Seq<char>, crate::rows::AnyValue>> {
    m.map_values(|c: Cell| c@)
}

impl LayoutSettings {
    pub fn new() -> (r: LayoutSettings)
        ensures
            r.0@ == Map::<Seq<char>, Cell>::empty(),
    {
        LayoutSettings(StrMap::new())
    }

    pub fn into_inner(self) -> (r: StrMap<Cell>)
        ensures
            r == self.0,
    {
        self.0
    }

    /// The settings in `map` whose keys name a layout; other keys are skipped.
    pub fn from_map_ref(map: &StrMap<Cell>) -> (r: LayoutSettings)
        ensures
            settings_view(r.0@) == settings_view(map@).restrict(
                map@.dom().filter(|k: Seq<char>| is_layout_name(k)),
            ),
    {
        let n = map.len();
        let mut out: StrMap<Cell> = StrMap::new();
        let mut i: usize = 0;
        while i < n
            invariant
                n == map.seq().len(),
                i <= n,
                crate::strmap::keys_unique(map.seq()),
                map@ == entries_map(map.seq()),
                settings_view(out@) == settings_view(entries_map(map.seq().subrange(0, i as int))).restrict(
                    entries_map(map.seq().subrange(0, i as int)).dom().filter(|k: Seq<char>| is_layout_name(k)),
                ),
            decreases n - i,
        {
            let key = map.key_at(i);
            let ghost before = out@;
            let ghost s = map.seq();
            let ghost prev = entries_map(s.subrange(0, i as int));
            proof {
                assert(s.subrange(0, i + 1).drop_last() =~= s.subrange(0, i as int));
                assert(s.subrange(0, i + 1).last() == s[i as int]);
            }
            match DatabaseLayout::from_name(key) {
                Ok(_) => {
                    let c = copy_cell(map.value_at(i));
                    let ghost cv = c@;
                    out.insert(key.clone(), c);
                    proof {
                        assert(is_layout_name(s[i as int].0@));
                        let nxt = entries_map(s.subrange(0, i + 1));
                        assert(nxt == prev.insert(s[i as int].0@, s[i as int].1));
                        assert(nxt.dom().filter(|k: Seq<char>| is_layout_name(k)) =~= prev.dom().filter(
                            |k: Seq<char>| is_layout_name(k),
                        ).insert(s[i as int].0@));
                        assert(cv == s[i as int].1@);
                        assert(settings_view(out@) =~= settings_view(before).insert(s[i as int].0@, cv));
                        assert(settings_view(out@) =~= settings_view(entries_map(s.subrange(0, i + 1))).restrict(
                            entries_map(s.subrange(0, i + 1)).dom().filter(|k: Seq<char>| is_layout_name(k)),
                        ));
                    }
                },
                Err(_) => {
                    proof {
                        assert(!is_layout_name(s[i as int].0@));
                        let nxt = entries_map(s.subrange(0, i + 1));
                        assert(nxt == prev.insert(s[i as int].0@, s[i as int].1));
                        assert(nxt.dom().filter(|k: Seq<char>| is_layout_name(k)) =~= prev.dom().filter(
                            |k: Seq<char>| is_layout_name(k),
                        ));
                        assert(settings_view(out@) =~= settings_view(entries_map(s.subrange(0, i + 1))).restrict(
                            entries_map(s.subrange(0, i + 1)).dom().filter(|k: Seq<char>| is_layout_name(k)),
                        ));
                    }
                },
            }
            i = i + 1;
        }
        assert(map.seq().subrange(0, n as int) =~= map.seq());
        LayoutSettings(out)
    }
}

} // verus!
