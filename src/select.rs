use vstd::prelude::*;
use vstd::string::*;

use crate::client::CarInfo;
use crate::text::str_eq;

verus! {

/// A way to pick a car on the command line.
#[derive(Clone, Debug)]
pub enum Selector {
    Model(String),
    Name(String),
    Version(String),
}

/// Whether selector `s` picks car `car`.
pub open spec fn selects(s: Selector, car: CarInfo) -> bool {
    match s {
        Selector::Model(m) => car.id@ == m@,
        Selector::Name(n) => car.name@ == n@,
        Selector::Version(v) => car.version@ == v@,
    }
}

/// Whether every selector picks `car`.
pub open spec fn selects_all(sels: Seq<Selector>, car: CarInfo) -> bool {
    forall|i: int| 0 <= i < sels.len() ==> #[trigger] selects(sels[i], car)
}

pub open spec fn selector_arg(s: Selector) -> Seq<char> {
    match s {
        Selector::Model(m) => seq!['-', 'm', ' '] + m@,
        Selector::Name(n) => seq!['-', 'n', ' ', '"'] + n@ + seq!['"'],
        Selector::Version(v) => seq!['-', 'v', ' '] + v@,
    }
}

impl Selector {
    /// The selectors that pick out `car`: its model ID, name and version.
    pub fn all_for_car(car: &CarInfo) -> (r: Vec<Selector>)
        ensures
            r@.len() == 3,
            r@[0] matches Selector::Model(m) && m@ == car.id@,
            r@[1] matches Selector::Name(n) && n@ == car.name@,
            r@[2] matches Selector::Version(v) && v@ == car.version@,
    {
        let mut r: Vec<Selector> = Vec::new();
        r.push(Selector::Model(car.id.clone()));
        r.push(Selector::Name(car.name.clone()));
        r.push(Selector::Version(car.version.clone()));
        r
    }

    /// Whether this selector picks `car`.
    pub fn matches_car(&self, car: &CarInfo) -> (r: bool)
        ensures
            r == selects(*self, *car),
    {
        match self {
            Selector::Model(m) => str_eq(car.id.as_str(), m.as_str()),
            Selector::Name(n) => str_eq(car.name.as_str(), n.as_str()),
            Selector::Version(v) => str_eq(car.version.as_str(), v.as_str()),
        }
    }

    /// Whether two selectors are the same.
    pub fn same_as(&self, other: &Selector) -> (r: bool)
        ensures
            r == match (*self, *other) {
                (Selector::Model(a), Selector::Model(b)) => a@ == b@,
                (Selector::Name(a), Selector::Name(b)) => a@ == b@,
                (Selector::Version(a), Selector::Version(b)) => a@ == b@,
                _ => false,
            },
    {
        match (self, other) {
            (Selector::Model(a), Selector::Model(b)) => str_eq(a.as_str(), b.as_str()),
            (Selector::Name(a), Selector::Name(b)) => str_eq(a.as_str(), b.as_str()),
            (Selector::Version(a), Selector::Version(b)) => str_eq(a.as_str(), b.as_str()),
            _ => false,
        }
    }

    /// The selector as command-line arguments.
    pub fn to_arg(&self) -> (r: String)
        ensures
            r@ == selector_arg(*self),
    {
        proof {
            reveal_strlit("-m ");
            reveal_strlit("-n \"");
            reveal_strlit("\"");
            reveal_strlit("-v ");
        }
        assert("-m "@ =~= seq!['-', 'm', ' ']);
        assert("-n \""@ =~= seq!['-', 'n', ' ', '"']);
        assert("\""@ =~= seq!['"']);
        assert("-v "@ =~= seq!['-', 'v', ' ']);
        match self {
            Selector::Model(m) => String::from_str("-m ").concat(m.as_str()),
            Selector::Name(n) => String::from_str("-n \"").concat(n.as_str()).concat("\""),
            Selector::Version(v) => String::from_str("-v ").concat(v.as_str()),
        }
    }
}

/// `items` with `sep` between each two.
pub open spec fn joined_text(items: Seq<Seq<char>>, sep: Seq<char>) -> Seq<char>
    decreases items.len(),
{
    if items.len() == 0 {
        Seq::empty()
    } else if items.len() == 1 {
        items[0]
    } else {
        joined_text(items.drop_last(), sep) + sep + items.last()
    }
}

pub open spec fn views(items: Seq<String>) -> Seq<Seq<char>> {
    Seq::new(items.len(), |i: int| items[i]@)
}

/// `items` with `sep` between each two.
pub fn join(items: &Vec<String>, sep: &str) -> (r: String)
    ensures
        r@ == joined_text(views(items@), sep@),
{
    let mut r = String::new();
    let mut i: usize = 0;
    while i < items.len()
        invariant
            i <= items@.len(),
            r@ == joined_text(views(items@.subrange(0, i as int)), sep@),
        decreases items@.len() - i,
    {
        let ghost before = views(items@.subrange(0, i as int));
        if i > 0 {
            r = r.concat(sep);
        }
        r = r.concat(items[i].as_str());
        i += 1;
        proof {
            let now = views(items@.subrange(0, i as int));
            assert(now.drop_last() =~= before);
            if i == 1 {
                assert(now =~= seq![items@[0]@]);
            }
        }
    }
    assert(items@.subrange(0, items@.len() as int) =~= items@);
    r
}

/// The outcome of picking one car.
#[derive(Clone, Debug)]
pub enum Selection {
    /// Exactly one car matches; its index.
    One(usize),
    /// No car matches.
    NoMatch,
    /// Several cars match; their indices.
    Ambiguous(Vec<usize>),
}

/// Whether every selector picks `car`.
pub fn matches_all(sels: &Vec<Selector>, car: &CarInfo) -> (r: bool)
    ensures
        r == selects_all(sels@, *car),
{
    let mut k: usize = 0;
    while k < sels.len()
        invariant
            k <= sels@.len(),
            forall|x: int| 0 <= x < k ==> #[trigger] selects(sels@[x], *car),
        decreases sels@.len() - k,
    {
        if !sels[k].matches_car(car) {
            return false;
        }
        k += 1;
    }
    true
}

/// Pick the one car that every selector picks.
pub fn select_car(cars: &Vec<CarInfo>, sels: &Vec<Selector>) -> (r: Selection)
    ensures
        match r {
            Selection::One(i) => i < cars@.len() && selects_all(sels@, cars@[i as int]) && forall|j: int|
                0 <= j < cars@.len() && j != i ==> !selects_all(sels@, #[trigger] cars@[j]),
            Selection::NoMatch => forall|j: int| 0 <= j < cars@.len() ==> !selects_all(sels@, #[trigger] cars@[j]),
            Selection::Ambiguous(v) => v@.len() >= 2 && (forall|k: int|
                0 <= k < v@.len() ==> #[trigger] v@[k] < cars@.len() && selects_all(sels@, cars@[v@[k] as int]))
                && (forall|j: int| 0 <= j < cars@.len() && selects_all(sels@, #[trigger] cars@[j]) ==> v@.contains(j as usize)),
        },
{
    let mut found: Vec<usize> = Vec::new();
    let mut j: usize = 0;
    while j < cars.len()
        invariant
            j <= cars@.len(),
            forall|k: int| 0 <= k < found@.len() ==> #[trigger] found@[k] < j && selects_all(sels@, cars@[found@[k] as int]),
            forall|c: int| 0 <= c < j && selects_all(sels@, #[trigger] cars@[c]) ==> found@.contains(c as usize),
            forall|a: int, b: int| 0 <= a < b < found@.len() ==> found@[a] < found@[b],
        decreases cars@.len() - j,
    {
        let all = matches_all(sels, &cars[j]);
        assert(all == selects_all(sels@, cars@[j as int]));
        let ghost old_found = found@;
        if all {
            found.push(j);
            proof {
                assert(found@ == old_found.push(j));
                assert(found@[found@.len() - 1] == j);
                assert(found@.contains(j as usize));
                assert forall|k: int| 0 <= k < found@.len() implies #[trigger] found@[k] < j + 1 && selects_all(sels@, cars@[found@[k] as int]) by {
                    if k < old_found.len() {
                        assert(found@[k] == old_found[k]);
                    }
                }
                assert forall|a: int, b: int| 0 <= a < b < found@.len() implies found@[a] < found@[b] by {
                    assert(found@[a] == old_found[a]);
                }
                assert forall|c: int| 0 <= c < j && selects_all(sels@, #[trigger] cars@[c]) implies found@.contains(c as usize) by {
                    assert(old_found.contains(c as usize));
                    let x = choose|x: int| 0 <= x < old_found.len() && old_found[x] == c as usize;
                    assert(found@[x] == c as usize);
                }
            }
        }
        j += 1;
    }
    if found.len() == 0 {
        Selection::NoMatch
    } else if found.len() == 1 {
        let i = found[0];
        proof {
            assert(selects_all(sels@, cars@[found@[0] as int]));
            assert forall|c: int| 0 <= c < cars@.len() && c != i implies !selects_all(sels@, #[trigger] cars@[c]) by {
                if selects_all(sels@, cars@[c]) {
                    assert(found@.contains(c as usize));
                    let x = choose|x: int| 0 <= x < found@.len() && found@[x] == c as usize;
                    assert(x == 0);
                }
            }
        }
        Selection::One(i)
    } else {
        Selection::Ambiguous(found)
    }
}


pub open spec fn spaces(n: nat) -> Seq<char> {
    Seq::new(n, |i: int| ' ')
}

/// `s` padded with spaces to at least `w` characters.
pub open spec fn pad(s: Seq<char>, w: nat) -> Seq<char> {
    if s.len() >= w {
        s
    } else {
        s + spaces((w - s.len()) as nat)
    }
}

/// Width of the model column: the longest ID of cars `0..n`, at least that of
/// the heading.
pub open spec fn id_width(cars: Seq<CarInfo>, n: nat) -> nat
    decreases n,
{
    if n == 0 {
        5
    } else {
        let w = id_width(cars, (n - 1) as nat);
        if cars[n - 1].id@.len() > w {
            cars[n - 1].id@.len()
        } else {
            w
        }
    }
}

/// Width of the name column: the longest name of cars `0..n`, at least that
/// of the heading.
pub open spec fn name_width(cars: Seq<CarInfo>, n: nat) -> nat
    decreases n,
{
    if n == 0 {
        4
    } else {
        let w = name_width(cars, (n - 1) as nat);
        if cars[n - 1].name@.len() > w {
            cars[n - 1].name@.len()
        } else {
            w
        }
    }
}

pub open spec fn table_header(mw: nat, nw: nat) -> Seq<char> {
    pad("MODEL"@, mw) + seq![' '] + pad("NAME"@, nw + 2) + " VERSION\n"@
}

pub open spec fn table_row(c: CarInfo, mw: nat, nw: nat) -> Seq<char> {
    pad(c.id@, mw) + seq![' ', '"'] + c.name@ + seq!['"'] + spaces((nw - c.name@.len()) as nat) + seq![' ']
        + c.version@ + seq!['\n']
}

pub open spec fn table_rows(cars: Seq<CarInfo>, n: nat, mw: nat, nw: nat) -> Seq<char>
    decreases n,
{
    if n == 0 {
        Seq::empty()
    } else {
        table_rows(cars, (n - 1) as nat, mw, nw) + table_row(cars[n - 1], mw, nw)
    }
}

fn spaces_string(n: usize) -> (r: String)
    ensures
        r@ == spaces(n as nat),
{
    proof {
        reveal_strlit(" ");
    }
    let mut r = String::new();
    let mut k: usize = 0;
    while k < n
        invariant
            k <= n,
            " "@ == seq![' '],
            r@ == spaces(k as nat),
        decreases n - k,
    {
        r.append(" ");
        k += 1;
        assert(r@ =~= spaces(k as nat));
    }
    r
}

fn pad_string(s: &str, w: usize) -> (r: String)
    ensures
        r@ == pad(s@, w as nat),
{
    let n = s.unicode_len();
    if n >= w {
        String::from_str(s)
    } else {
        String::from_str(s).concat(spaces_string(w - n).as_str())
    }
}

/// The `list` command's text output: a heading, then one line for each car
/// with its model ID, quoted name and firmware version, in aligned columns.
pub fn car_table(cars: &Vec<CarInfo>) -> (r: String)
    ensures
        r@ == table_header(id_width(cars@, cars@.len()), name_width(cars@, cars@.len())) + table_rows(
            cars@,
            cars@.len(),
            id_width(cars@, cars@.len()),
            name_width(cars@, cars@.len()),
        ),
{
    let mut mw: usize = 5;
    let mut nw: usize = 4;
    let mut i: usize = 0;
    while i < cars.len()
        invariant
            i <= cars@.len(),
            mw == id_width(cars@, i as nat),
            nw == name_width(cars@, i as nat),
            nw >= 4,
        decreases cars@.len() - i,
    {
        let il = cars[i].id.as_str().unicode_len();
        let nl = cars[i].name.as_str().unicode_len();
        if il > mw {
            mw = il;
        }
        if nl > nw {
            nw = nl;
        }
        i += 1;
    }
    proof {
        reveal_strlit("MODEL");
        reveal_strlit("NAME");
        reveal_strlit(" ");
        reveal_strlit(" \"");
        reveal_strlit("\"");
        reveal_strlit("\n");
    }
    assert(" "@ =~= seq![' ']);
    assert(" \""@ =~= seq![' ', '"']);
    assert("\""@ =~= seq!['"']);
    assert("\n"@ =~= seq!['\n']);
    proof {
        reveal_strlit("  ");
    }
    let name_head = pad_string("NAME", nw).concat("  ");
    assert(name_head@ =~= pad("NAME"@, (nw + 2) as nat));
    let mut r = pad_string("MODEL", mw).concat(" ").concat(name_head.as_str()).concat(" VERSION\n");
    let mut k: usize = 0;
    while k < cars.len()
        invariant
            k <= cars@.len(),
            mw == id_width(cars@, cars@.len()),
            nw == name_width(cars@, cars@.len()),
            " "@ == seq![' '],
            " \""@ == seq![' ', '"'],
            "\""@ == seq!['"'],
            "\n"@ == seq!['\n'],
            r@ == table_header(mw as nat, nw as nat) + table_rows(cars@, k as nat, mw as nat, nw as nat),
        decreases cars@.len() - k,
    {
        let c = &cars[k];
        proof {
            lemma_name_width_bound(cars@, cars@.len(), k as nat);
        }
        let gap = nw - c.name.as_str().unicode_len();
        let row = pad_string(c.id.as_str(), mw).concat(" \"").concat(c.name.as_str()).concat("\"").concat(
            spaces_string(gap).as_str(),
        ).concat(" ").concat(c.version.as_str()).concat("\n");
        assert(row@ =~= table_row(*c, mw as nat, nw as nat));
        r = r.concat(row.as_str());
        k += 1;
        assert(r@ =~= table_header(mw as nat, nw as nat) + table_rows(cars@, k as nat, mw as nat, nw as nat));
    }
    r
}

proof fn lemma_name_width_bound(cars: Seq<CarInfo>, n: nat, k: nat)
    requires
        k < n <= cars.len(),
    ensures
        cars[k as int].name@.len() <= name_width(cars, n),
    decreases n,
{
    if k < n - 1 {
        lemma_name_width_bound(cars, (n - 1) as nat, k);
    }
}

} // verus!
