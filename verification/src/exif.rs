//! The EXIF summary shown under an image: camera, lens, aperture, exposure,
//! ISO and flash, one per line, each only when the file records it.

use vstd::prelude::*;

verus! {

/// The flash tag as it is recorded: the tag's bit field, or a text.
pub enum FlashTag {
    Bits(u16),
    Text(String),
}

/// The EXIF values the summary shows. Aperture and exposure arrive already
/// written out (for example `f/2.8`, `1/250s`); the ISO speed arrives as the
/// number or text recorded.
pub struct ExifFields {
    pub make: Option<String>,
    pub model: Option<String>,
    pub lens: Option<String>,
    pub aperture: Option<String>,
    pub exposure: Option<String>,
    pub iso: Option<String>,
    pub flash: Option<FlashTag>,
}

/// The view of an optional string.
pub open spec fn opt_view(o: Option<String>) -> Option<Seq<char>> {
    match o {
        Some(s) => Some(s@),
        None => None,
    }
}

/// The camera line: make and model separated by a space, the make alone
/// when the model is missing or empty, the model alone without a make.
pub open spec fn camera_line(make: Option<Seq<char>>, model: Option<Seq<char>>) -> Option<Seq<char>> {
    match make {
        Some(v) => match model {
            Some(m) => if m.len() > 0 { Some(v + seq![' '] + m) } else { Some(v) },
            None => Some(v),
        },
        None => model,
    }
}

/// The lens line: the lens model unless it is empty.
pub open spec fn lens_line(lens: Option<Seq<char>>) -> Option<Seq<char>> {
    match lens {
        Some(v) => if v.len() > 0 { Some(v) } else { None },
        None => None,
    }
}

/// The ISO line.
pub open spec fn iso_line(iso: Option<Seq<char>>) -> Option<Seq<char>> {
    match iso {
        Some(v) => Some(seq!['I', 'S', 'O', ' '] + v),
        None => None,
    }
}

/// The flash line: on or off by the tag's lowest bit, or the recorded text.
pub open spec fn flash_line(flash: Option<FlashTag>) -> Option<Seq<char>> {
    match flash {
        Some(FlashTag::Bits(v)) => Some(
            seq!['F', 'l', 'a', 's', 'h', ':', ' '] + if v % 2 == 1 {
                seq!['O', 'n']
            } else {
                seq!['O', 'f', 'f']
            },
        ),
        Some(FlashTag::Text(t)) => Some(seq!['F', 'l', 'a', 's', 'h', ':', ' '] + t@),
        None => None,
    }
}

/// The lines that are present, in order.
pub open spec fn present_lines(opts: Seq<Option<Seq<char>>>) -> Seq<Seq<char>>
    decreases opts.len(),
{
    if opts.len() == 0 {
        Seq::empty()
    } else {
        let rest = present_lines(opts.drop_last());
        match opts.last() {
            Some(l) => rest.push(l),
            None => rest,
        }
    }
}

/// Lines joined with a line break between each two.
pub open spec fn joined(lines: Seq<Seq<char>>) -> Seq<char>
    decreases lines.len(),
{
    if lines.len() == 0 {
        Seq::empty()
    } else if lines.len() == 1 {
        lines[0]
    } else {
        joined(lines.drop_last()) + seq!['\n'] + lines.last()
    }
}

/// The summary's candidate lines, in display order.
pub open spec fn summary_lines(f: ExifFields) -> Seq<Option<Seq<char>>> {
    seq![
        camera_line(opt_view(f.make), opt_view(f.model)),
        lens_line(opt_view(f.lens)),
        opt_view(f.aperture),
        opt_view(f.exposure),
        iso_line(opt_view(f.iso)),
        flash_line(f.flash),
    ]
}

/// A string holding the characters of `a` followed by those of `b`.
fn concat_str(a: &str, b: &str) -> (r: String)
    ensures
        r@ == a@ + b@,
{
    let mut s = String::from_str(a);
    s.append(b);
    s
}

fn camera(make: &Option<String>, model: &Option<String>) -> (r: Option<String>)
    ensures
        opt_view(r) == camera_line(opt_view(*make), opt_view(*model)),
{
    proof {
        reveal_strlit(" ");
    }
    match make {
        Some(v) => match model {
            Some(m) => if m.unicode_len() > 0 {
                let mut s = concat_str(v.as_str(), " ");
                s.append(m.as_str());
                Some(s)
            } else {
                Some(v.clone())
            },
            None => Some(v.clone()),
        },
        None => match model {
            Some(m) => Some(m.clone()),
            None => None,
        },
    }
}

fn lens(value: &Option<String>) -> (r: Option<String>)
    ensures
        opt_view(r) == lens_line(opt_view(*value)),
{
    match value {
        Some(v) => if v.unicode_len() > 0 { Some(v.clone()) } else { None },
        None => None,
    }
}

fn copied(o: &Option<String>) -> (r: Option<String>)
    ensures
        opt_view(r) == opt_view(*o),
{
    match o {
        Some(v) => Some(v.clone()),
        None => None,
    }
}

fn iso(value: &Option<String>) -> (r: Option<String>)
    ensures
        opt_view(r) == iso_line(opt_view(*value)),
{
    proof {
        reveal_strlit("ISO ");
    }
    match value {
        Some(v) => Some(concat_str("ISO ", v.as_str())),
        None => None,
    }
}

fn flash(value: &Option<FlashTag>) -> (r: Option<String>)
    ensures
        opt_view(r) == flash_line(*value),
{
    proof {
        reveal_strlit("Flash: ");
        reveal_strlit("On");
        reveal_strlit("Off");
    }
    match value {
        Some(FlashTag::Bits(v)) => if *v % 2 == 1 {
            Some(concat_str("Flash: ", "On"))
        } else {
            Some(concat_str("Flash: ", "Off"))
        },
        Some(FlashTag::Text(t)) => Some(concat_str("Flash: ", t.as_str())),
        None => None,
    }
}

/// The EXIF summary of `f`: its camera, lens, aperture, exposure, ISO and
/// flash lines, each only when present, joined by line breaks.
pub fn exif_summary(f: &ExifFields) -> (r: String)
    ensures
        r@ == joined(present_lines(summary_lines(*f))),
{
    let mut lines: Vec<Option<String>> = Vec::new();
    lines.push(camera(&f.make, &f.model));
    lines.push(lens(&f.lens));
    lines.push(copied(&f.aperture));
    lines.push(copied(&f.exposure));
    lines.push(iso(&f.iso));
    lines.push(flash(&f.flash));
    let ghost want = summary_lines(*f);
    assert(lines@.len() == 6);
    assert forall|k: int| 0 <= k < 6 implies opt_view(#[trigger] lines@[k]) == want[k] by {}
    let mut out = String::new();
    let mut count: usize = 0;
    let mut k: usize = 0;
    while k < lines.len()
        invariant
            k <= lines@.len(),
            lines@.len() == 6,
            want.len() == 6,
            forall|j: int| 0 <= j < 6 ==> opt_view(#[trigger] lines@[j]) == want[j],
            count <= k,
            count == present_lines(want.take(k as int)).len(),
            out@ == joined(present_lines(want.take(k as int))),
        decreases lines@.len() - k,
    {
        let ghost before = present_lines(want.take(k as int));
        proof {
            assert(want.take(k + 1).drop_last() =~= want.take(k as int));
            assert(want.take(k + 1).last() == want[k as int]);
        }
        let ghost out0 = out@;
        match &lines[k] {
            Some(l) => {
                assert(opt_view(lines@[k as int]) == Some(l@));
                assert(want[k as int] == Some(l@));
                assert(present_lines(want.take(k + 1)) == before.push(l@));
                if count > 0 {
                    out.append("\n");
                }
                out.append(l.as_str());
                count = count + 1;
                proof {
                    let now = before.push(l@);
                    assert(now.drop_last() =~= before);
                    assert(now.last() == l@);
                    if before.len() == 0 {
                        assert(out@ =~= l@);
                        assert(joined(now) == now[0]);
                    } else {
                        reveal_strlit("\n");
                        assert("\n"@ =~= seq!['\n']);
                        assert(out@ =~= out0 + seq!['\n'] + l@);
                        assert(joined(now) == joined(before) + seq!['\n'] + l@);
                    }
                }
            },
            None => {
                assert(want[k as int] is None);
                assert(present_lines(want.take(k + 1)) == before);
            },
        }
        k = k + 1;
    }
    proof {
        assert(want.take(6) =~= want);
    }
    out
}

} // verus!
