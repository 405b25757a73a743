//! What a pair of discards is worth to the crib it goes to, by the ranks of
//! the two cards: two tables of expected values, found by experience and
//! held here as data. All values are in hundredths of a point.

use vstd::prelude::*;

verus! {

/// Row `row` of the table for the dealer's own crib: the expected value, in
/// hundredths of a point, of a discard of rank `row + 1` with a discard of
/// each rank from Ace to King.
pub open spec fn spec_my_crib_row(row: int) -> Seq<u32> {
    if row == 0 {
        seq![526, 418, 447, 545, 548, 380, 373, 370, 333, 337, 365, 339, 342]
    } else if row == 1 {
        seq![418, 567, 697, 451, 544, 387, 381, 358, 363, 351, 379, 352, 355]
    } else if row == 2 {
        seq![447, 697, 590, 488, 601, 372, 367, 384, 366, 361, 388, 362, 366]
    } else if row == 3 {
        seq![545, 451, 488, 565, 654, 387, 374, 384, 369, 362, 389, 363, 367]
    } else if row == 4 {
        seq![548, 544, 601, 654, 895, 665, 604, 549, 547, 668, 704, 671, 670]
    } else if row == 5 {
        seq![380, 387, 372, 387, 665, 574, 494, 470, 511, 315, 340, 308, 313]
    } else if row == 6 {
        seq![373, 381, 367, 374, 604, 494, 598, 658, 406, 310, 343, 317, 321]
    } else if row == 7 {
        seq![370, 358, 384, 384, 549, 470, 658, 542, 474, 386, 339, 316, 320]
    } else if row == 8 {
        seq![333, 363, 366, 369, 547, 511, 406, 474, 509, 427, 398, 297, 305]
    } else if row == 9 {
        seq![337, 351, 361, 362, 668, 315, 310, 386, 427, 473, 464, 336, 286]
    } else if row == 10 {
        seq![365, 379, 388, 389, 704, 340, 343, 339, 398, 464, 537, 490, 407]
    } else if row == 11 {
        seq![339, 352, 362, 363, 671, 308, 317, 316, 297, 336, 490, 466, 350]
    } else {
        seq![342, 355, 366, 367, 670, 313, 321, 320, 305, 286, 407, 350, 462]
    }
}

/// Row `row` of the table for the opponent's crib: the expected value, in
/// hundredths of a point, of a discard of rank `row + 1` with a discard of
/// each rank from Ace to King.
pub open spec fn spec_your_crib_row(row: int) -> Seq<u32> {
    if row == 0 {
        seq![602, 507, 507, 572, 601, 491, 489, 485, 455, 448, 468, 433, 430]
    } else if row == 1 {
        seq![507, 638, 733, 533, 611, 497, 497, 494, 470, 459, 481, 456, 445]
    } else if row == 2 {
        seq![507, 733, 668, 596, 678, 487, 501, 505, 487, 463, 486, 459, 448]
    } else if row == 3 {
        seq![572, 533, 596, 653, 726, 534, 488, 494, 468, 453, 485, 446, 436]
    } else if row == 4 {
        seq![601, 611, 678, 726, 937, 747, 700, 630, 615, 741, 776, 734, 725]
    } else if row == 5 {
        seq![491, 497, 487, 534, 747, 708, 642, 586, 626, 431, 457, 422, 414]
    } else if row == 6 {
        seq![489, 497, 501, 488, 700, 642, 714, 763, 526, 431, 468, 432, 427]
    } else if row == 7 {
        seq![485, 494, 505, 494, 630, 586, 763, 682, 583, 510, 459, 431, 420]
    } else if row == 8 {
        seq![455, 470, 487, 468, 615, 626, 526, 583, 639, 543, 496, 411, 403]
    } else if row == 9 {
        seq![448, 459, 463, 453, 741, 431, 431, 510, 543, 608, 563, 461, 388]
    } else if row == 10 {
        seq![468, 481, 486, 485, 776, 457, 468, 459, 496, 563, 642, 546, 477]
    } else if row == 11 {
        seq![433, 456, 459, 446, 734, 422, 432, 431, 411, 461, 546, 579, 449]
    } else {
        seq![430, 445, 448, 436, 725, 414, 427, 420, 403, 388, 477, 449, 565]
    }
}

/// The expected value to my crib, in hundredths of a point, of two discards
/// whose ranks stand at places `rank1` and `rank2` (Ace at 0, King at 12).
pub open spec fn spec_value_to_my_crib(rank1: int, rank2: int) -> int {
    spec_my_crib_row(rank1)[rank2] as int
}

/// The expected value to your crib, in hundredths of a point, of two discards
/// whose ranks stand at places `rank1` and `rank2` (Ace at 0, King at 12).
pub open spec fn spec_value_to_your_crib(rank1: int, rank2: int) -> int {
    spec_your_crib_row(rank1)[rank2] as int
}

/// One row of the table for my crib.
fn my_crib_row(row: usize) -> (values: [u32; 13])
    requires
        row < 13,
    ensures
        values@ == spec_my_crib_row(row as int),
{
    let values: [u32; 13] = match row {
        0 => [526, 418, 447, 545, 548, 380, 373, 370, 333, 337, 365, 339, 342],
        1 => [418, 567, 697, 451, 544, 387, 381, 358, 363, 351, 379, 352, 355],
        2 => [447, 697, 590, 488, 601, 372, 367, 384, 366, 361, 388, 362, 366],
        3 => [545, 451, 488, 565, 654, 387, 374, 384, 369, 362, 389, 363, 367],
        4 => [548, 544, 601, 654, 895, 665, 604, 549, 547, 668, 704, 671, 670],
        5 => [380, 387, 372, 387, 665, 574, 494, 470, 511, 315, 340, 308, 313],
        6 => [373, 381, 367, 374, 604, 494, 598, 658, 406, 310, 343, 317, 321],
        7 => [370, 358, 384, 384, 549, 470, 658, 542, 474, 386, 339, 316, 320],
        8 => [333, 363, 366, 369, 547, 511, 406, 474, 509, 427, 398, 297, 305],
        9 => [337, 351, 361, 362, 668, 315, 310, 386, 427, 473, 464, 336, 286],
        10 => [365, 379, 388, 389, 704, 340, 343, 339, 398, 464, 537, 490, 407],
        11 => [339, 352, 362, 363, 671, 308, 317, 316, 297, 336, 490, 466, 350],
        _ => [342, 355, 366, 367, 670, 313, 321, 320, 305, 286, 407, 350, 462],
    };
    assert(values@ =~= spec_my_crib_row(row as int));
    values
}

/// One row of the table for your crib.
fn your_crib_row(row: usize) -> (values: [u32; 13])
    requires
        row < 13,
    ensures
        values@ == spec_your_crib_row(row as int),
{
    let values: [u32; 13] = match row {
        0 => [602, 507, 507, 572, 601, 491, 489, 485, 455, 448, 468, 433, 430],
        1 => [507, 638, 733, 533, 611, 497, 497, 494, 470, 459, 481, 456, 445],
        2 => [507, 733, 668, 596, 678, 487, 501, 505, 487, 463, 486, 459, 448],
        3 => [572, 533, 596, 653, 726, 534, 488, 494, 468, 453, 485, 446, 436],
        4 => [601, 611, 678, 726, 937, 747, 700, 630, 615, 741, 776, 734, 725],
        5 => [491, 497, 487, 534, 747, 708, 642, 586, 626, 431, 457, 422, 414],
        6 => [489, 497, 501, 488, 700, 642, 714, 763, 526, 431, 468, 432, 427],
        7 => [485, 494, 505, 494, 630, 586, 763, 682, 583, 510, 459, 431, 420],
        8 => [455, 470, 487, 468, 615, 626, 526, 583, 639, 543, 496, 411, 403],
        9 => [448, 459, 463, 453, 741, 431, 431, 510, 543, 608, 563, 461, 388],
        10 => [468, 481, 486, 485, 776, 457, 468, 459, 496, 563, 642, 546, 477],
        11 => [433, 456, 459, 446, 734, 422, 432, 431, 411, 461, 546, 579, 449],
        _ => [430, 445, 448, 436, 725, 414, 427, 420, 403, 388, 477, 449, 565],
    };
    assert(values@ =~= spec_your_crib_row(row as int));
    values
}

/// The expected value to my crib, in hundredths of a point, of two discards
/// whose ranks stand at places `rank1` and `rank2`.
pub fn card_value_to_my_crib(rank1: usize, rank2: usize) -> (value: u32)
    requires
        rank1 < 13,
        rank2 < 13,
    ensures
        value == spec_value_to_my_crib(rank1 as int, rank2 as int),
        value < 1000,
{
    let row = my_crib_row(rank1);
    row[rank2]
}

/// The expected value to your crib, in hundredths of a point, of two
/// discards whose ranks stand at places `rank1` and `rank2`.
pub fn card_value_to_your_crib(rank1: usize, rank2: usize) -> (value: u32)
    requires
        rank1 < 13,
        rank2 < 13,
    ensures
        value == spec_value_to_your_crib(rank1 as int, rank2 as int),
        value < 1000,
{
    let row = your_crib_row(rank1);
    row[rank2]
}

} // verus!
