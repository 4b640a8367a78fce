//! How texts are cut up and put together.

use crate::power::{BatteryInfo, PowerState};
use crate::process::{Process, ProcessFiles};
use crate::quantity::{Quantity, TENTH_BITS};
use vstd::prelude::*;

verus! {

use crate::binary::{is_finite, one_in_units, order_is_that_of_values, value};
use crate::estimate::duration;
use crate::profile::{is_profile, named_profile};
use crate::text::{
    agrees, decimal, is_solid, is_space, lower, lowered, number, trimmed, trimmed_back,
    trimmed_front, two_digits, words,
};

/// Whether a text is white space and nothing else.
pub open spec fn is_blank(s: Seq<char>) -> bool {
    forall|i: int| 0 <= i < s.len() ==> is_space(#[trigger] s[i])
}

/// Blanks around a text are trimmed off, and nothing of the text itself.
pub proof fn trimming_takes_the_blanks_off(before: Seq<char>, s: Seq<char>, after: Seq<char>)
    requires
        is_blank(before),
        is_blank(after),
        s.len() > 0,
        !is_space(s.first()),
        !is_space(s.last()),
    ensures
        trimmed(before + s + after) == s,
{
    fronts_come_off(before, s + after);
    assert(before + (s + after) =~= before + s + after);
    backs_come_off(s, after);
}

proof fn fronts_come_off(before: Seq<char>, s: Seq<char>)
    requires
        is_blank(before),
        s.len() > 0,
        !is_space(s.first()),
    ensures
        trimmed_front(before + s) == s,
    decreases before.len(),
{
    if before.len() == 0 {
        assert(before + s =~= s);
    } else {
        let rest = before.drop_first();
        assert(is_space(before[0]));
        assert forall|i: int| 0 <= i < rest.len() implies is_space(#[trigger] rest[i]) by {
            assert(is_space(before[i + 1]));
        }
        fronts_come_off(rest, s);
        assert((before + s).drop_first() =~= rest + s);
    }
}

proof fn backs_come_off(s: Seq<char>, after: Seq<char>)
    requires
        is_blank(after),
        s.len() > 0,
        !is_space(s.last()),
    ensures
        trimmed_back(s + after) == s,
    decreases after.len(),
{
    if after.len() == 0 {
        assert(s + after =~= s);
    } else {
        let rest = after.drop_last();
        assert(is_space(after[after.len() - 1]));
        assert forall|i: int| 0 <= i < rest.len() implies is_space(#[trigger] rest[i]) by {
            assert(is_space(after[i]));
        }
        backs_come_off(s, rest);
        assert((s + after).drop_last() =~= s + rest);
    }
}

/// Of a blank text nothing is left.
pub proof fn blanks_are_trimmed_away(s: Seq<char>)
    requires
        is_blank(s),
    ensures
        trimmed(s).len() == 0,
    decreases s.len(),
{
    if s.len() > 0 {
        let rest = s.drop_first();
        assert(is_space(s[0]));
        assert forall|i: int| 0 <= i < rest.len() implies is_space(#[trigger] rest[i]) by {
            assert(is_space(s[i + 1]));
        }
        blanks_are_trimmed_away(rest);
    }
}

/// Two texts agree when they differ in nothing but the case of their letters.
pub proof fn texts_agree_but_for_case(a: Seq<char>, b: Seq<char>)
    ensures
        agrees(a, b) <==> a.len() == b.len() && forall|i: int|
            0 <= i < a.len() ==> {
                let (x, y) = (#[trigger] a[i], b[i]);
                ||| x == y
                ||| 'A' <= x <= 'Z' && y as int == x as int + 32
                ||| 'A' <= y <= 'Z' && x as int == y as int + 32
            },
{
    let (x, y) = (lowered(a), lowered(b));
    if agrees(a, b) {
        assert(x.len() == y.len());
        assert forall|i: int| 0 <= i < a.len() implies {
            let (p, q) = (#[trigger] a[i], b[i]);
            ||| p == q
            ||| 'A' <= p <= 'Z' && q as int == p as int + 32
            ||| 'A' <= q <= 'Z' && p as int == q as int + 32
        } by {
            assert(x[i] == y[i]);
            assert(lower(a[i]) == lower(b[i]));
        }
    }
    if a.len() == b.len() && forall|i: int|
        0 <= i < a.len() ==> {
            let (p, q) = (#[trigger] a[i], b[i]);
            ||| p == q
            ||| 'A' <= p <= 'Z' && q as int == p as int + 32
            ||| 'A' <= q <= 'Z' && p as int == q as int + 32
        } {
        assert forall|i: int| 0 <= i < x.len() implies x[i] == y[i] by {
            let (p, q) = (a[i], b[i]);
            assert(lower(p) == lower(q));
        }
        assert(x =~= y);
    }
}

/// White space parts the words of a text: those before it and those after it
/// are the words of the two sides.
pub proof fn spaces_part_words(a: Seq<char>, c: char, b: Seq<char>)
    requires
        is_space(c),
    ensures
        words(a + seq![c] + b) == words(a) + words(b),
    decreases b.len(),
{
    let s = a + seq![c] + b;
    if b.len() == 0 {
        assert(s.drop_last() =~= a);
        assert(words(a) + words(b) =~= words(a));
    } else {
        let rest = b.drop_last();
        spaces_part_words(a, c, rest);
        assert(s.drop_last() =~= a + seq![c] + rest);
        assert(s.last() == b.last());
        let before = words(a) + words(rest);
        if is_space(b.last()) {
        } else if rest.len() == 0 {
            assert(s[s.len() - 2] == c);
            assert(words(rest) =~= Seq::<Seq<char>>::empty());
            assert(words(b) =~= seq![seq![b.last()]]);
            assert(before.push(seq![b.last()]) =~= words(a) + words(b));
        } else {
            assert(s[s.len() - 2] == b[b.len() - 2]);
            if is_space(b[b.len() - 2]) {
                assert(before.push(seq![b.last()]) =~= words(a) + words(b));
            } else {
                assert(rest.last() == b[b.len() - 2]);
                crate::text::words_are_solid(rest);
                let grown = words(rest).last().push(b.last());
                assert(before.drop_last().push(grown) =~= words(a) + words(b));
            }
        }
    }
}

/// A text without white space is one word.
pub proof fn solid_texts_are_one_word(w: Seq<char>)
    requires
        is_solid(w),
    ensures
        words(w) == seq![w],
    decreases w.len(),
{
    let rest = w.drop_last();
    assert(!is_space(w[w.len() - 1]));
    if rest.len() == 0 {
        assert(w =~= seq![w.last()]);
        assert(words(rest) =~= Seq::<Seq<char>>::empty());
        assert(words(w) =~= seq![w]);
    } else {
        assert forall|j: int| 0 <= j < rest.len() implies !is_space(#[trigger] rest[j]) by {
            assert(!is_space(w[j]));
        }
        solid_texts_are_one_word(rest);
        assert(!is_space(w[w.len() - 2]));
        assert(rest.push(w.last()) =~= w);
        assert(words(w) =~= seq![w]);
    }
}

/// A reply that begins with a preset names it, whatever comes behind a space;
/// one that begins with another word names none.
pub proof fn replies_begin_with_the_preset(w: Seq<char>, c: char, rest: Seq<char>)
    requires
        is_solid(w),
        is_space(c),
    ensures
        is_profile(w) ==> named_profile(w + seq![c] + rest) == Some(w) && named_profile(w) == Some(
            w,
        ),
        !is_profile(w) ==> named_profile(w + seq![c] + rest) is None && named_profile(w) is None,
{
    spaces_part_words(w, c, rest);
    solid_texts_are_one_word(w);
    assert((words(w) + words(rest))[0] == w);
}

/// The three presets are accepted, each by its own name.
pub proof fn there_are_three_presets()
    ensures
        is_profile("performance"@),
        is_profile("balanced"@),
        is_profile("power-saver"@),
        forall|s: Seq<char>| #[trigger]
            is_profile(s) ==> s == "performance"@ || s == "balanced"@ || s == "power-saver"@,
{
}

proof fn decimals_are_solid(n: nat)
    ensures
        is_solid(decimal(n)),
{
    crate::text::decimal_reads_back(n);
    assert forall|j: int| 0 <= j < decimal(n).len() implies !is_space(#[trigger] decimal(n)[j]) by {
        assert(crate::text::is_digit(decimal(n)[j]));
    }
}

/// A duration below an hour is its minutes.
pub proof fn short_durations_tell_their_minutes(minutes: nat)
    requires
        minutes < 60,
    ensures
        words(duration(minutes)).len() == 2,
        number(words(duration(minutes))[0], 59) == Some(minutes),
        words(duration(minutes))[1] == "min"@,
{
    reveal_strlit(" min");
    reveal_strlit("min");
    crate::text::decimal_reads_back(minutes);
    decimals_are_solid(minutes);
    assert(duration(minutes) =~= decimal(minutes) + seq![' '] + "min"@);
    spaces_part_words(decimal(minutes), ' ', "min"@);
    solid_texts_are_one_word(decimal(minutes));
    solid_texts_are_one_word("min"@);
    assert(words(decimal(minutes)) + words("min"@) =~= seq![decimal(minutes), "min"@]);
}

/// A duration from an hour on is its hours and, in two digits, the minutes
/// beyond them.
pub proof fn long_durations_tell_hours_and_minutes(minutes: nat)
    requires
        minutes >= 60,
    ensures
        ({
            let w = words(duration(minutes));
            &&& w.len() == 4
            &&& w[1] == "hr"@
            &&& w[3] == "min"@
            &&& w[2].len() == 2
            &&& number(w[0], minutes) is Some
            &&& number(w[2], 59) is Some
            &&& number(w[0], minutes)->0 * 60 + number(w[2], 59)->0 == minutes
        }),
{
    reveal_strlit(" min");
    reveal_strlit("min");
    reveal_strlit(" hr ");
    reveal_strlit("hr");
    let h = minutes / 60;
    let m = minutes % 60;
    crate::text::decimal_reads_back(h);
    decimals_are_solid(h);
    two_digits_read_back(m);
    let rest = two_digits(m) + seq![' '] + "min"@;
    let tail = "hr"@ + seq![' '] + rest;
    assert(duration(minutes) =~= decimal(h) + seq![' '] + tail);
    spaces_part_words(decimal(h), ' ', tail);
    spaces_part_words("hr"@, ' ', rest);
    spaces_part_words(two_digits(m), ' ', "min"@);
    solid_texts_are_one_word(decimal(h));
    solid_texts_are_one_word("hr"@);
    solid_texts_are_one_word(two_digits(m));
    solid_texts_are_one_word("min"@);
    assert(words(duration(minutes)) =~= seq![decimal(h), "hr"@, two_digits(m), "min"@]);
}

proof fn two_digits_read_back(m: nat)
    requires
        m < 60,
    ensures
        is_solid(two_digits(m)),
        two_digits(m).len() == 2,
        number(two_digits(m), 59) == Some(m),
{
    let d = two_digits(m);
    reveal_with_fuel(decimal, 2);
    crate::text::decimal_reads_back(m);
    decimals_are_solid(m);
    if m < 10 {
        assert(d =~= seq!['0', decimal(m)[0]]);
        assert(d.drop_last() =~= seq!['0']);
        assert(seq!['0'].drop_last() =~= Seq::<char>::empty());
        assert(decimal(m).drop_last() =~= Seq::<char>::empty());
        reveal_with_fuel(crate::text::digits_value, 3);
    }
}

// What the kernel's words mean.

/// "Charging" and "Discharging" are taken at their word, in any mix of cases,
/// whatever the adapter or the power reading say.
pub proof fn the_kernel_is_taken_at_its_word(b: BatteryInfo)
    ensures
        agrees(b.status@, "Charging"@) ==> b.power_state() == PowerState::Charging,
        agrees(b.status@, "Discharging"@) ==> b.power_state() == PowerState::OnBattery,
{
    reveal_strlit("Charging");
    reveal_strlit("charging");
    reveal_strlit("Discharging");
    reveal_strlit("discharging");
    assert(lowered("Charging"@) =~= lowered("charging"@));
    assert(lowered("Discharging"@) =~= lowered("discharging"@));
    assert(lowered("charging"@).len() == 8);
    assert(lowered("discharging"@).len() == 11);
}

/// Where neither the kernel nor an adapter says, a battery that gives more
/// than a tenth of a watt is drawn on.
pub proof fn a_tenth_of_a_watt_is_a_drain(b: BatteryInfo)
    requires
        !agrees(b.status@, "charging"@),
        !agrees(b.status@, "discharging"@),
        !agrees(b.status@, "full"@),
        !agrees(b.status@, "not charging"@),
        b.ac_online is None,
        is_finite(b.power_watts),
    ensures
        value(b.power_watts) * 9 >= one_in_units() ==> b.power_state() == PowerState::OnBattery,
        value(b.power_watts) * 11 <= one_in_units() ==> b.power_state() == PowerState::PluggedIn,
{
    let tenth = Quantity { bits: TENTH_BITS };
    let span = crate::binary::SPAN as nat;
    let digits = 0x19_9999_9999_999Anat;
    crate::binary::put_together(digits, 1018);
    assert(TENTH_BITS == 1018 * span + digits);
    crate::binary::one_is_one();
    crate::binary::put_together(span, 1022);
    assert(crate::quantity::ONE_BITS == 1022 * span + span);
    vstd::arithmetic::power2::lemma2_to64();
    vstd::arithmetic::power2::lemma_pow2_adds(4, 1018);
    vstd::arithmetic::power2::lemma_pow2_pos(1018);
    let a = vstd::arithmetic::power2::pow2(1018) as int;
    let (t, one) = (value(tenth), one_in_units() as int);
    assert(t == digits * a && one == 0x10_0000_0000_0000 * (16 * a));
    assert(9 * t < one && 11 * t > one) by (nonlinear_arith)
        requires
            t == 0x19_9999_9999_999A * a,
            one == 0x10_0000_0000_0000 * (16 * a),
            a > 0,
    ;
    order_is_that_of_values(tenth, b.power_watts);
}

// What the kernel writes about a process.

/// The number that a text's word at position `n` writes, none where there is
/// no such word or it is no number.
pub open spec fn number_at(s: Seq<char>, n: int) -> nat {
    if 0 <= n < words(s).len() && number(words(s)[n], 0xffff_ffff_ffff_ffff) is Some {
        number(words(s)[n], 0xffff_ffff_ffff_ffff)->0
    } else {
        0
    }
}

/// A process has the number of its entry, its name without the blanks around
/// it, and the fourteenth and fifteenth words of its `stat` as its ticks.
pub proof fn processes_are_as_the_kernel_writes(f: ProcessFiles, p: Process)
    requires
        crate::process::describes(f, p),
    ensures
        f.entry is Some && number(f.entry->0@, 0xffff_ffff) == Some(p.pid as nat),
        f.comm is Some && p.name@ == trimmed(f.comm->0@),
        f.stat matches Some(t) ==> {
            &&& p.user_ticks == number_at(trimmed(t@), 13)
            &&& p.system_ticks == number_at(trimmed(t@), 14)
        },
        f.stat is None ==> p.user_ticks == 0 && p.system_ticks == 0,
        f.status is None ==> p.resident_kb is None,
{
    assert(words(Seq::<char>::empty()).len() == 0);
}

/// The resident memory is the second word of the first line that begins with
/// "VmRSS:".
pub proof fn memory_is_read_from_its_line(line: Seq<char>, rest: Seq<char>)
    requires
        forall|i: int| 0 <= i < line.len() ==> line[i] != '\n',
    ensures
        ({
            let found = crate::process::resident_field(line + seq!['\n'] + rest);
            let alone = crate::process::resident_field(line);
            let starts = line.len() >= 6 && line.take(6) == "VmRSS:"@;
            &&& starts ==> found == alone && alone == if words(line).len() > 1 {
                Some(words(line)[1])
            } else {
                None
            }
            &&& !starts ==> found == crate::process::resident_field(rest) && alone is None
        }),
{
    reveal_strlit("VmRSS:");
    assert("VmRSS:"@.len() == 6);
    let s = line + seq!['\n'] + rest;
    let n = line.len() as int;
    assert forall|i: int| 0 <= i < n implies s[i] != '\n' by {
        assert(s[i] == line[i]);
    }
    crate::process::lemma_line_end_is(s, n);
    crate::process::lemma_line_end_is(line, n);
    assert(s.take(n) =~= line);
    assert(line.take(n) =~= line);
    assert(s.skip(n + 1) =~= rest);
}

} // verus!
