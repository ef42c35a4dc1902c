//! Where a scan starts.

use vstd::prelude::*;

verus! {

/// How many drive letters there are.
pub const DRIVE_LETTERS: usize = 26;

/// The letter A.
const FIRST_LETTER: u8 = 0x41;

/// What was found of the file system's roots.
pub enum Probe {
    /// The system has drives; for each letter from A on, whether its root exists.
    Letters([bool; 26]),
    /// The system has a single root.
    SingleRoot,
}

/// A character of the Unicode property White_Space, as the Unicode character database lists them.
pub open spec fn is_white_space(c: char) -> bool {
    ||| '\u{9}' <= c <= '\u{d}'
    ||| c == ' '
    ||| c == '\u{85}'
    ||| c == '\u{a0}'
    ||| c == '\u{1680}'
    ||| '\u{2000}' <= c <= '\u{200a}'
    ||| c == '\u{2028}'
    ||| c == '\u{2029}'
    ||| c == '\u{202f}'
    ||| c == '\u{205f}'
    ||| c == '\u{3000}'
}

/// `char::is_whitespace` is documented to say whether the character has the Unicode property
/// White_Space; the contract spells that property out.
pub assume_specification[ char::is_whitespace ](c: char) -> (r: bool)
    ensures
        r == is_white_space(c),
;

/// A text of nothing but white space.
pub open spec fn is_blank(text: Seq<char>) -> bool {
    forall|i: int| 0 <= i < text.len() ==> is_white_space(#[trigger] text[i])
}

/// The root of the drive of the given letter, counted from A.
pub open spec fn drive_path(letter: int) -> Seq<char> {
    seq![('A' as int + letter) as char, ':', '\\']
}

/// The roots of those of the first `n` drives that exist, in the order of their letters.
pub open spec fn existing_drives(found: Seq<bool>, n: int) -> Seq<Seq<char>>
    decreases n,
{
    if n <= 0 {
        Seq::empty()
    } else if found[n - 1] {
        existing_drives(found, n - 1).push(drive_path(n - 1))
    } else {
        existing_drives(found, n - 1)
    }
}

/// The roots of a whole system: those of all drives, that of drive C where none was found, or the
/// single root.
pub open spec fn system_roots(probe: Probe) -> Seq<Seq<char>> {
    match probe {
        Probe::Letters(found) => {
            let drives = existing_drives(found@, DRIVE_LETTERS as int);
            if drives.len() == 0 {
                seq![drive_path(2)]
            } else {
                drives
            }
        },
        Probe::SingleRoot => seq![seq!['/']],
    }
}

/// The root of a drive is its letter, a colon and a backslash; different drives have different ones.
pub proof fn law_drive_paths(letter: int, other: int)
    requires
        0 <= letter < 26,
        0 <= other < 26,
    ensures
        drive_path(letter).len() == 3,
        drive_path(letter)[0] as int == 65 + letter,
        drive_path(letter)[1] == ':',
        drive_path(letter)[2] == '\\',
        drive_path(letter) == drive_path(other) ==> letter == other,
{
    assert(drive_path(letter)[0] as int == 65 + letter);
    assert(drive_path(other)[0] as int == 65 + other);
}

/// Each of the first `n` drives that exist stands behind those before it, and nothing else stands
/// there.
proof fn lemma_existing_drives(found: Seq<bool>, n: int)
    requires
        0 <= n <= 26,
        found.len() == 26,
    ensures
        forall|k: int|
            0 <= k < n && #[trigger] found[k] ==> existing_drives(found, k).len() < existing_drives(
                found,
                n,
            ).len() && existing_drives(found, n)[existing_drives(found, k).len() as int]
                == drive_path(k),
        forall|j: int|
            0 <= j < existing_drives(found, n).len() ==> is_existing_drive(
                found,
                n,
                #[trigger] existing_drives(found, n)[j],
            ),
        forall|i: int, j: int|
            0 <= i < j < existing_drives(found, n).len() ==> (#[trigger] existing_drives(
                found,
                n,
            )[i])[0] < (#[trigger] existing_drives(found, n)[j])[0],
    decreases n,
{
    if n > 0 {
        lemma_existing_drives(found, n - 1);
        let before = existing_drives(found, n - 1);
        let now = existing_drives(found, n);
        law_drive_paths(n - 1, n - 1);
        assert forall|j: int| 0 <= j < now.len() implies is_existing_drive(
            found,
            n,
            #[trigger] now[j],
        ) by {
            if j < before.len() {
                assert(now[j] == before[j]);
            }
        }
        assert forall|i: int, j: int| 0 <= i < j < now.len() implies (#[trigger] now[i])[0] < (
        #[trigger] now[j])[0] by {
            assert(now[i] == before[i]);
            if j < before.len() {
                assert(now[j] == before[j]);
            }
        }
    }
}

/// `root` is the root of one of the first `n` drives, and of one that exists.
spec fn is_existing_drive(found: Seq<bool>, n: int, root: Seq<char>) -> bool {
    let letter = root[0] as int - 65;
    0 <= letter < n && found[letter] && root == drive_path(letter)
}

/// On a system of drives a whole scan starts at the root of every drive that exists and at no
/// other: for each letter, its root is among them exactly if it was found. They stand in the order
/// of the letters, which leaves no room for one to stand twice. Where no drive was found, it is
/// drive C alone. A system without drives has the single root.
pub proof fn law_drives(found: [bool; 26])
    ensures
        ({
            let roots = system_roots(Probe::Letters(found));
            let some = exists|l: int| 0 <= l < 26 && #[trigger] found@[l];
            &&& some ==> forall|k: int|
                0 <= k < 26 ==> (#[trigger] found@[k] <==> roots.contains(
                    seq![(65 + k) as char, ':', '\\'],
                ))
            &&& some ==> forall|j: int|
                0 <= j < roots.len() ==> (#[trigger] roots[j]).len() == 3 && 'A' <= roots[j][0]
                    && roots[j][0] <= 'Z' && roots[j][1] == ':' && roots[j][2] == '\\'
            &&& forall|i: int, j: int|
                0 <= i < j < roots.len() ==> (#[trigger] roots[i])[0] < (#[trigger] roots[j])[0]
            &&& !some ==> roots.len() == 1 && roots[0] == seq!['C', ':', '\\']
        }),
        system_roots(Probe::SingleRoot).len() == 1,
        system_roots(Probe::SingleRoot)[0] == seq!['/'],
{
    let drives = existing_drives(found@, 26);
    let roots = system_roots(Probe::Letters(found));
    lemma_existing_drives(found@, 26);
    if exists|l: int| 0 <= l < 26 && #[trigger] found@[l] {
        let l = choose|l: int| 0 <= l < 26 && #[trigger] found@[l];
        assert(drives[existing_drives(found@, l).len() as int] == drive_path(l));
        assert(roots == drives);
        assert forall|k: int| 0 <= k < 26 implies (#[trigger] found@[k] <==> roots.contains(
            seq![(65 + k) as char, ':', '\\'],
        )) by {
            let root = seq![(65 + k) as char, ':', '\\'];
            assert(root =~= drive_path(k));
            if found@[k] {
                assert(roots[existing_drives(found@, k).len() as int] == drive_path(k));
            }
            if roots.contains(root) {
                let j = choose|j: int| 0 <= j < roots.len() && roots[j] == root;
                assert(is_existing_drive(found@, 26, drives[j]));
                law_drive_paths(k, k);
            }
        }
        assert forall|j: int| 0 <= j < roots.len() implies (#[trigger] roots[j]).len() == 3 && 'A'
            <= roots[j][0] && roots[j][0] <= 'Z' && roots[j][1] == ':' && roots[j][2]
            == '\\' by {
            assert(is_existing_drive(found@, 26, drives[j]));
        }
    } else {
        if drives.len() > 0 {
            assert(is_existing_drive(found@, 26, drives[0]));
        }
        assert(roots[0] =~= seq!['C', ':', '\\']);
    }
}

/// A name is blank exactly if each of its characters is white space.
pub proof fn law_blank(name: Seq<char>)
    ensures
        is_blank(name) <==> (forall|i: int| 0 <= i < name.len() ==> is_white_space(
            #[trigger] name[i],
        )),
{
}

/// There is always somewhere to start.
pub proof fn law_some_root(probe: Probe)
    ensures
        system_roots(probe).len() > 0,
{
}

/// Whether a text holds nothing but white space.
fn blank(text: &str) -> (r: bool)
    ensures
        r == is_blank(text@),
{
    for c in rest: text.chars()
        invariant
            rest.seq() == text@,
            is_blank(text@.take(rest.index())),
    {
        let ghost i = rest.index();
        assert(text@[i] == c);
        if !c.is_whitespace() {
            return false;
        }
        assert forall|j: int| 0 <= j < text@.take(i + 1).len() implies is_white_space(
            #[trigger] text@.take(i + 1)[j],
        ) by {
            if j < i {
                assert(text@.take(i)[j] == text@[j]);
            }
        }
    }
    assert(text@.take(text@.len() as int) =~= text@);
    true
}

/// The roots of a scan that is asked to keep to one folder: that folder. `None` if it is not asked
/// to, or by a blank name; the scan is then one of the whole system.
pub fn scan_roots(root: Option<String>) -> (roots: Option<Vec<String>>)
    ensures
        roots is Some <==> root is Some && !is_blank(root->0@),
        roots is None <==> root is None || (forall|i: int|
            0 <= i < root->0@.len() ==> is_white_space(#[trigger] root->0@[i])),
        roots is Some ==> roots->0@ == seq![root->0],
{
    match root {
        Some(folder) => {
            if blank(folder.as_str()) {
                None
            } else {
                let mut roots: Vec<String> = Vec::new();
                roots.push(folder);
                Some(roots)
            }
        },
        None => None,
    }
}

/// The root of the drive of the given letter, counted from A.
pub fn drive_root(letter: u8) -> (root: String)
    requires
        letter < DRIVE_LETTERS,
    ensures
        root@ == drive_path(letter as int),
        root@ == seq![(65 + letter) as char, ':', '\\'],
{
    let mut root = String::new();
    root.push((FIRST_LETTER + letter) as char);
    root.push(':');
    root.push('\\');
    assert(root@ =~= drive_path(letter as int));
    root
}

/// The roots of a whole system.
pub fn get_drives(probe: &Probe) -> (roots: Vec<String>)
    ensures
        crate::text::texts(roots@) == system_roots(*probe),
        roots@.len() > 0,
        *probe is SingleRoot ==> roots@.len() == 1 && roots@[0]@ == seq!['/'],
        *probe matches Probe::Letters(found) ==> forall|k: int|
            0 <= k < 26 && #[trigger] found@[k] ==> crate::text::texts(roots@).contains(
                seq![(65 + k) as char, ':', '\\'],
            ),
{
    let mut roots: Vec<String> = Vec::new();
    match probe {
        Probe::Letters(found) => {
            assert(crate::text::texts(roots@) =~= existing_drives(found@, 0));
            for letter in 0..26u8
                invariant
                    crate::text::texts(roots@) == existing_drives(found@, letter as int),
            {
                if found[letter as usize] {
                    let ghost before = roots@;
                    roots.push(drive_root(letter));
                    assert(crate::text::texts(roots@) =~= crate::text::texts(before).push(
                        drive_path(letter as int),
                    ));
                }
            }
            if roots.len() == 0 {
                roots.push(drive_root(2));
                assert(crate::text::texts(roots@) =~= seq![drive_path(2)]);
            }
        },
        Probe::SingleRoot => {
            let mut root = String::new();
            root.push('/');
            assert(root@ =~= seq!['/']);
            roots.push(root);
            assert(crate::text::texts(roots@) =~= seq![seq!['/']]);
        },
    }
    proof {
        match *probe {
            Probe::Letters(found) => {
                law_drives(found);
            },
            Probe::SingleRoot => {
                assert(crate::text::texts(roots@)[0] == roots@[0]@);
            },
        }
    }
    roots
}

} // verus!
