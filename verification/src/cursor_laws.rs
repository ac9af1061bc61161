//! Where the cursor shows: what a build makes of the pointer and the sprite.

use vstd::prelude::*;

use crate::cursor::CursorAssignment;
use crate::scene_build::{built, CursorEntry, CursorInput};
use crate::walk::{layout_ok, WalkInput};
use crate::windows::OutputLayout;

verus! {

/// Whether output pixel `q` lies under the sprite when the sprite's hotspot is on
/// the root-space point `(x, y)`.
pub open spec fn under_sprite(
    cur: CursorEntry,
    x: int,
    y: int,
    l: OutputLayout,
    q: (int, int),
) -> bool {
    &&& 0 <= q.0 < l.width
    &&& 0 <= q.1 < l.height
    &&& 0 <= q.0 + l.x + cur.hot_x - x < cur.extent.width
    &&& 0 <= q.1 + l.y + cur.hot_y - y < cur.extent.height
}

/// The same input with no sprite registered.
pub open spec fn spriteless(c: CursorInput) -> CursorInput {
    CursorInput { entry: None, ..c }
}

/// A cursor that is drawn by the frame is drawn with its hotspot on the pointer:
/// its corner, the hotspot and the output's place in the root add up to where the
/// pointer is. It is drawn in full size over everything else, blended, and is
/// sampled last; the rest of the frame is what it would be without a sprite.
pub proof fn the_hotspot_lands_on_the_pointer(
    input: WalkInput,
    window_id: u32,
    order: Seq<u32>,
    cow: Option<u32>,
    cursor: CursorInput,
    cur: CursorEntry,
)
    requires
        layout_ok(input.layout),
        cursor.entry == Some(cur),
        cur.extent.width <= i32::MAX,
        cur.extent.height <= i32::MAX,
    ensures
        ({
            let b = built(input, window_id, order, cow, cursor);
            let bare = built(input, window_id, order, cow, spriteless(cursor));
            let draw = b.draws.last();
            &&& bare.cursor_assignment is Hidden
            &&& bare.new_cursor_rect is None
            &&& bare.software_cursor_tail is None
            &&& b.software_cursor_tail is Some <==> b.cursor_assignment is Sw
            &&& !(b.cursor_assignment is Hidden) ==> (input.store.get(cur.id) matches Some(d)
                && d.storage.image_view != 0)
            &&& b.cursor_assignment is Sw ==> {
                &&& input.store.get(cur.id) is Some
                &&& b.draws == bare.draws.push(draw)
                &&& b.sampled_ids == bare.sampled_ids.push(cur.id)
                &&& b.presented_ids == bare.presented_ids.push(cur.id)
                &&& b.pieces_ids == bare.pieces_ids.push(cur.id)
                &&& draw.dst.offset.x + cur.hot_x + input.layout.x == cursor.x
                &&& draw.dst.offset.y + cur.hot_y + input.layout.y == cursor.y
                &&& draw.dst.extent == cur.extent
                &&& draw.image_view == (input.store.get(cur.id)->0).storage.sample_view
                &&& draw.alpha_passthrough
                &&& draw.source.x == 0 && draw.source.y == 0
                &&& draw.source.width == draw.source.of_width
                &&& draw.source.height == draw.source.of_height
                &&& draw.source.of_width > 0 && draw.source.of_height > 0
                &&& b.cursor_assignment == (CursorAssignment::Sw {
                    pos: (draw.dst.offset.x, draw.dst.offset.y),
                })
            }
            &&& !(b.cursor_assignment is Sw) ==> {
                &&& b.draws == bare.draws
                &&& b.sampled_ids == bare.sampled_ids
                &&& b.presented_ids == bare.presented_ids
                &&& b.pieces_ids == bare.pieces_ids
            }
            &&& b.participants == bare.participants
            &&& b.snapshots == bare.snapshots
            &&& b.projected_damage == bare.projected_damage
            &&& b.stats == bare.stats
        }),
{
    let b = built(input, window_id, order, cow, cursor);
    let bare = built(input, window_id, order, cow, spriteless(cursor));
    if b.cursor_assignment is Sw {
        assert(b.draws =~= bare.draws.push(b.draws.last()));
    }
}

/// An output shows the cursor exactly if some pixel of the output lies under the
/// sprite, and its footprint is those pixels. The plane is used exactly if it may
/// be; it is told where the pointer is and which sprite this is.
pub proof fn the_cursor_shows_where_its_sprite_lies(
    input: WalkInput,
    window_id: u32,
    order: Seq<u32>,
    cow: Option<u32>,
    cursor: CursorInput,
    cur: CursorEntry,
    q: (int, int),
)
    requires
        layout_ok(input.layout),
        cursor.entry == Some(cur),
        cur.extent.width <= i32::MAX,
        cur.extent.height <= i32::MAX,
        input.store.get(cur.id) is Some,
        (input.store.get(cur.id)->0).storage.image_view != 0,
    ensures
        ({
            let b = built(input, window_id, order, cow, cursor);
            &&& under_sprite(cur, cursor.x as int, cursor.y as int, input.layout, q) ==> {
                &&& !(b.cursor_assignment is Hidden)
                &&& b.new_cursor_rect is Some
                &&& b.new_cursor_rect->0.px().contains(q)
            }
            &&& !(b.cursor_assignment is Hidden) ==> {
                &&& b.new_cursor_rect is Some
                &&& b.cursor_record_version == Some(cur.record_version)
                &&& b.new_cursor_rect->0.px().contains(q) ==> under_sprite(
                    cur,
                    cursor.x as int,
                    cursor.y as int,
                    input.layout,
                    q,
                )
                &&& exists|a: (int, int)|
                    #[trigger] under_sprite(
                        cur,
                        cursor.x as int,
                        cursor.y as int,
                        input.layout,
                        a,
                    )
                &&& (b.cursor_assignment is Hw <==> cursor.hw)
                &&& (b.cursor_assignment is Sw <==> !cursor.hw)
            }
            &&& b.cursor_assignment is Hidden ==> {
                &&& b.new_cursor_rect is None
                &&& b.cursor_record_version is None
                &&& b.software_cursor_tail is None
            }
            &&& b.cursor_assignment matches CursorAssignment::Hw {
                x,
                y,
                record_version,
                hot_x,
                hot_y,
            } ==> {
                &&& x == cursor.x && y == cursor.y
                &&& record_version == cur.record_version
                &&& cur.hot_x >= 0 ==> hot_x == cur.hot_x
                &&& cur.hot_y >= 0 ==> hot_y == cur.hot_y
                &&& cur.hot_x < 0 ==> hot_x == 0
                &&& cur.hot_y < 0 ==> hot_y == 0
            }
        }),
{
    let b = built(input, window_id, order, cow, cursor);
    if b.new_cursor_rect is Some {
        let r = b.new_cursor_rect->0;
        let a = (r.x0(), r.y0());
        assert(r.px().contains(a));
        assert(under_sprite(cur, cursor.x as int, cursor.y as int, input.layout, a));
    }
}

/// The output that the pointer is on shows the cursor, if the hotspot lies inside
/// the sprite; the pixel under the pointer is in its footprint.
pub proof fn the_pointers_output_shows_the_cursor(
    input: WalkInput,
    window_id: u32,
    order: Seq<u32>,
    cow: Option<u32>,
    cursor: CursorInput,
    cur: CursorEntry,
)
    requires
        layout_ok(input.layout),
        cursor.entry == Some(cur),
        cur.extent.width <= i32::MAX,
        cur.extent.height <= i32::MAX,
        0 <= cur.hot_x < cur.extent.width,
        0 <= cur.hot_y < cur.extent.height,
        input.store.get(cur.id) is Some,
        (input.store.get(cur.id)->0).storage.image_view != 0,
        input.layout.x <= cursor.x < input.layout.x + input.layout.width,
        input.layout.y <= cursor.y < input.layout.y + input.layout.height,
    ensures
        ({
            let b = built(input, window_id, order, cow, cursor);
            &&& !(b.cursor_assignment is Hidden)
            &&& b.new_cursor_rect is Some
            &&& b.new_cursor_rect->0.px().contains(
                (cursor.x - input.layout.x, cursor.y - input.layout.y),
            )
        }),
{
    the_cursor_shows_where_its_sprite_lies(
        input,
        window_id,
        order,
        cow,
        cursor,
        cur,
        (cursor.x - input.layout.x, cursor.y - input.layout.y),
    );
}

} // verus!