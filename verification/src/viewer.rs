//! The viewer: the current image of a folder, what is cached, and what the window says.
use crate::binary64::{
    lemma_truncated_whole, lemma_whole_exact, truncated, whole, Binary64, Number,
};
use crate::cache::{
    cached_frames_are_distinct, distinct, evicted, eviction_adds_nothing,
    fitting_frame_is_read_back, found_at, holds,
    limit_is_kept, other_frames_are_kept, place_of, protected_frame_is_read_back,
    protected_frame_stays, push_keeps_others, remaining_frames_are_distinct,
    total, touched, without, FrameCache,
};
use crate::canvas::{fit_zoom, format_zoom, zoom_text, CanvasState, ImageCanvas, TextureSize};
use crate::decimal::{decimal, decimal_signed, format_i32, format_u64};
use crate::frame::{
    edited_dimensions, edited_size, texture_for_rotation, turned_size, DecodedFrame, Texture,
};
use crate::listing::path_views;
use crate::loader::{LoaderCommand, LoaderEvent};
use crate::path::{components, file_name, text_or, Components, ImagePath};
use std::sync::Arc;
use vstd::arithmetic::div_mod::*;
use vstd::prelude::*;

verus! {

/// The size of the canvas in its window.
#[derive(Clone, Copy, Debug)]
pub struct ViewSize {
    pub width: i32,
    pub height: i32,
}

/// The viewer.
pub struct Viewer {
    pub paths: Vec<ImagePath>,
    pub index: usize,
    pub direction: i32,
    pub generation: u64,
    pub canvas: ImageCanvas,
    pub cache: FrameCache,
    pub edit_rotation: u8,
    /// The largest edge that can be chosen for an edited copy, and the chosen one.
    pub resize_limit: i32,
    pub resize_edge: Binary64,
    pub title: String,
    pub status: String,
    pub info: String,
    pub metadata: String,
    pub edit_dimensions: String,
    pub info_visible: bool,
    pub metadata_shown: bool,
    pub edit_shown: bool,
    pub skip_delete_confirmation: bool,
}

/// What a change of the current image asks for.
#[derive(Debug)]
pub struct Update {
    /// The texture to show, where there is one.
    pub texture: Option<Texture>,
    /// What the loader has to be told.
    pub request: Option<LoaderCommand>,
    /// Whether no image is left and the window is to be closed.
    pub close: bool,
}

/// What a viewer stands for.
pub struct ViewerState {
    pub paths: Seq<Seq<u8>>,
    pub index: int,
    pub direction: int,
    pub generation: nat,
    pub canvas: CanvasState,
    pub limit: nat,
    pub frames: Seq<Arc<DecodedFrame>>,
    pub rotation: int,
    pub resize_limit: int,
    pub resize_edge: Number,
    pub title: Seq<char>,
    pub status: Seq<char>,
    pub info: Seq<char>,
    pub metadata: Seq<char>,
    pub edit_dimensions: Seq<char>,
    pub info_visible: bool,
    pub metadata_shown: bool,
    pub edit_shown: bool,
    pub skip_delete_confirmation: bool,
}

impl View for Viewer {
    type V = ViewerState;

    open spec fn view(&self) -> ViewerState {
        ViewerState {
            paths: path_views(self.paths@),
            index: self.index as int,
            direction: self.direction as int,
            generation: self.generation as nat,
            canvas: self.canvas@,
            limit: self.cache.limit(),
            frames: self.cache.frames(),
            rotation: self.edit_rotation as int,
            resize_limit: self.resize_limit as int,
            resize_edge: self.resize_edge@,
            title: self.title@,
            status: self.status@,
            info: self.info@,
            metadata: self.metadata@,
            edit_dimensions: self.edit_dimensions@,
            info_visible: self.info_visible,
            metadata_shown: self.metadata_shown,
            edit_shown: self.edit_shown,
            skip_delete_confirmation: self.skip_delete_confirmation,
        }
    }
}

/// The title of the window: the file name and its place among the images of the folder.
pub open spec fn title_text(path: Seq<u8>, index: int, count: nat) -> Seq<char> {
    text_or(file_name(path), "image"@) + "  —  "@ + decimal((index + 1) as nat) + " / "@ + decimal(
        count,
    )
}

/// What is said of an image at a zoom.
pub open spec fn info_text(frame: DecodedFrame, zoom: Number) -> Seq<char> {
    text_or(file_name(frame.path@), "image"@) + "\n"@ + decimal_signed(frame.source_width as int)
        + " × "@ + decimal_signed(frame.source_height as int) + " · "@ + frame.file_type@ + " · "@
        + zoom_text(zoom)
}

/// What is said of the size of an edited copy.
pub open spec fn dimensions_text(size: (int, int)) -> Seq<char> {
    "Output: "@ + decimal_signed(size.0) + " × "@ + decimal_signed(size.1)
}

/// The longer edge of the source of a frame.
pub open spec fn source_edge(frame: DecodedFrame) -> int {
    if frame.source_width > frame.source_height {
        frame.source_width as int
    } else {
        frame.source_height as int
    }
}

/// A listing without repetitions of neighbours, which are told apart by their components.
pub open spec fn deduplicated(paths: Seq<Seq<u8>>) -> Seq<Seq<u8>>
    decreases paths.len(),
{
    if paths.len() == 0 {
        seq![]
    } else {
        let before = deduplicated(paths.drop_last());
        if before.len() > 0 && components(before.last()) == components(paths.last()) {
            before
        } else {
            before.push(paths.last())
        }
    }
}

/// The places around the current one that are loaded ahead, those in the direction of travel
/// first.
pub open spec fn prefetch_offsets(direction: int) -> Seq<int> {
    if direction >= 0 {
        seq![1, 2, -1]
    } else {
        seq![-1, -2, 1]
    }
}

impl ViewerState {
    /// Whether there is a current image, all frames can be shown, and at most one panel is open.
    pub open spec fn valid(self) -> bool {
        &&& 0 <= self.index < self.paths.len() <= i32::MAX
        &&& self.sound()
    }

    /// What is always so, even when no image is left.
    pub open spec fn sound(self) -> bool {
        &&& 0 <= self.rotation < 4
        &&& !(self.metadata_shown && self.edit_shown)
        &&& distinct(self.frames)
        &&& forall|i: int| 0 <= i < self.frames.len() ==> (#[trigger] self.frames[i]).showable()
    }

    pub open spec fn current(self) -> Seq<u8> {
        self.paths[self.index]
    }

    /// By what the current path is told apart.
    pub open spec fn current_key(self) -> Components {
        components(self.current())
    }

    /// Whether the current image is decoded.
    pub open spec fn loaded(self) -> bool {
        holds(self.frames, self.current_key())
    }

    /// The decoded current image.
    pub open spec fn frame(self) -> DecodedFrame {
        *self.frames[place_of(self.frames, self.current_key())]
    }

    pub open spec fn titled(self) -> ViewerState {
        ViewerState { title: title_text(self.current(), self.index, self.paths.len()), ..self }
    }

    /// With what is said of the current image, if it is decoded.
    pub open spec fn informed(self, width: int, height: int) -> ViewerState {
        if self.loaded() {
            let zoom = match self.canvas.shown_zoom(width, height) {
                Some(zoom) => zoom,
                None => whole(1),
            };
            ViewerState { info: info_text(self.frame(), zoom), ..self }
        } else {
            self
        }
    }

    /// With the size that an edited copy of a frame has.
    pub open spec fn dimensioned(self, frame: DecodedFrame) -> ViewerState {
        let size = edited_size(
            frame.source_width as int,
            frame.source_height as int,
            self.rotation,
            truncated(self.resize_edge),
        );
        ViewerState { edit_dimensions: dimensions_text(size), ..self }
    }

    /// With the source size of a frame as the size of an edited copy.
    pub open spec fn unresized(self, frame: DecodedFrame) -> ViewerState {
        ViewerState {
            resize_limit: source_edge(frame),
            resize_edge: whole(source_edge(frame)),
            ..self
        }
    }

    /// With a frame on the canvas, turned as it is edited.
    pub open spec fn presenting(self, frame: DecodedFrame, width: int, height: int) -> ViewerState {
        let (texture_width, texture_height) = turned_size(
            self.rotation,
            frame.width as int,
            frame.height as int,
        );
        let (source_width, source_height) = turned_size(
            self.rotation,
            frame.source_width as int,
            frame.source_height as int,
        );
        let texture = TextureSize {
            width: texture_width as i32,
            height: texture_height as i32,
        };
        let shown = ViewerState {
            canvas: self.canvas.showing(texture, source_width, source_height),
            ..self
        }.informed(width, height);
        let told = ViewerState { metadata: frame.metadata@, ..shown };
        if told.edit_shown {
            told.dimensioned(frame)
        } else {
            told
        }
    }

    /// With the current image on the canvas if it is decoded, else waiting for it.
    pub open spec fn shown_or_loading(self, width: int, height: int) -> ViewerState {
        let fresh = ViewerState { rotation: 0, ..self }.titled();
        if self.loaded() {
            let used = ViewerState {
                frames: touched(self.frames, self.current_key()),
                ..fresh
            };
            ViewerState {
                status: seq![],
                ..used.unresized(self.frame()).presenting(self.frame(), width, height)
            }
        } else {
            ViewerState { status: "Loading…"@, ..fresh }
        }
    }

    /// With another current image, which has been reached in a direction.
    pub open spec fn at(self, index: int, direction: int) -> ViewerState {
        ViewerState { index, direction, generation: self.generation + 1, ..self }
    }

    /// The place `delta` images away, or the last one on the way there.
    pub open spec fn place_by(self, delta: int) -> int {
        if self.index + delta < 0 {
            0
        } else if self.index + delta >= self.paths.len() {
            self.paths.len() - 1
        } else {
            self.index + delta
        }
    }

    /// At another place, which is loaded or shown, unless it is the same one.
    pub open spec fn moved(self, place: int, direction: int, width: int, height: int) -> ViewerState {
        if place == self.index {
            self
        } else {
            self.at(place, direction).shown_or_loading(width, height)
        }
    }

    /// Some images further, or back.
    pub open spec fn moved_by(self, delta: int, width: int, height: int) -> ViewerState {
        self.moved(
            self.place_by(delta),
            if delta > 0 {
                1
            } else {
                -1
            },
            width,
            height,
        )
    }

    /// At the image of a place, or at the last one. Asking for the current place changes nothing.
    pub open spec fn moved_to(self, index: int, width: int, height: int) -> ViewerState {
        if index == self.index {
            self
        } else {
            self.at(
                if index < self.paths.len() {
                    index
                } else {
                    self.paths.len() - 1
                },
                if index > self.index {
                    1
                } else {
                    -1
                },
            ).shown_or_loading(width, height)
        }
    }

    /// With what is said of the image shown or hidden.
    pub open spec fn info_toggled(self, width: int, height: int) -> ViewerState {
        ViewerState { info_visible: !self.info_visible, ..self.informed(width, height) }
    }

    /// With the metadata panel opened in place of the edit panel, or closed.
    pub open spec fn metadata_toggled(self) -> ViewerState {
        ViewerState {
            metadata_shown: !self.metadata_shown,
            edit_shown: self.edit_shown && self.metadata_shown,
            ..self
        }
    }

    /// With the edit panel opened in place of the metadata panel, without edits, or closed.
    pub open spec fn edit_toggled(self, width: int, height: int) -> ViewerState {
        if self.edit_shown {
            ViewerState { edit_shown: false, ..self }
        } else {
            ViewerState { edit_shown: true, metadata_shown: false, ..self }.unedited(width, height)
        }
    }

    /// With another canvas, of which it is said what it shows.
    pub open spec fn with_canvas(self, canvas: CanvasState, width: int, height: int) -> ViewerState {
        ViewerState { canvas, ..self }.informed(width, height)
    }

    /// With another edge for an edited copy.
    pub open spec fn resized(self, edge: Number) -> ViewerState {
        let chosen = ViewerState { resize_edge: edge, ..self };
        if self.loaded() {
            chosen.dimensioned(self.frame())
        } else {
            chosen
        }
    }

    /// The paths around the current one that are not decoded yet.
    pub open spec fn missing(self, offsets: Seq<int>) -> Seq<Seq<u8>>
        decreases offsets.len(),
    {
        if offsets.len() == 0 {
            seq![]
        } else {
            let before = self.missing(offsets.drop_last());
            let place = self.index + offsets.last();
            if 0 <= place < self.paths.len() && !holds(
                self.frames,
                components(self.paths[place]),
            ) {
                before.push(self.paths[place])
            } else {
                before
            }
        }
    }

    /// The paths that the loader is asked for: the current one, then those around it that are
    /// not decoded yet.
    pub open spec fn requested(self) -> Seq<Seq<u8>> {
        deduplicated(
            seq![self.current()] + self.missing(prefetch_offsets(self.direction)),
        )
    }

    /// Whether a command asks for the images of this state.
    pub open spec fn asks(self, request: Option<LoaderCommand>) -> bool {
        request matches Some(command) && command matches LoaderCommand::Batch {
            generation,
            paths,
        } && generation == self.generation && path_views(paths@) == self.requested()
    }

    /// Whether an update shows the current image if it is decoded, and asks for what is missing.
    pub open spec fn updates(self, update: Update) -> bool {
        &&& !update.close
        &&& self.asks(update.request)
        &&& update.texture is Some <==> self.loaded()
        &&& update.texture matches Some(texture) ==> texture.shows(self.frame(), 0)
    }

    /// With a frame in the cache.
    pub open spec fn caching(self, frame: DecodedFrame) -> ViewerState {
        ViewerState {
            frames: evicted(
                without(self.frames, frame.path.key()).push(Arc::new(frame)),
                self.limit,
                self.current_key(),
            ),
            ..self
        }
    }

    /// What follows an event of the loader. A frame is always cached; it is shown if it is that of
    /// the current image and has been asked for since the current image has become so.
    pub open spec fn accepting(self, event: LoaderEvent, width: int, height: int) -> ViewerState {
        match event {
            LoaderEvent::Loaded { generation, frame } => if self.expects(generation, frame.path.key()) {
                let cached = self.caching(frame);
                let used = ViewerState {
                    frames: touched(cached.frames, self.current_key()),
                    ..cached
                };
                ViewerState {
                    status: seq![],
                    ..used.unresized(frame).presenting(frame, width, height)
                }
            } else {
                self.caching(frame)
            },
            LoaderEvent::Failed { generation, path, message } => if self.expects(
                generation,
                path.key(),
            ) {
                ViewerState { status: "Could not load: "@ + message@, ..self }
            } else {
                self
            },
        }
    }

    /// Whether an event is about the current image and not outdated.
    pub open spec fn expects(self, generation: u64, path: Components) -> bool {
        generation == self.generation && path == self.current_key()
    }

    /// Whether an event can be accepted: a frame can be shown, and its bytes can be counted.
    pub open spec fn acceptable(self, event: LoaderEvent) -> bool {
        event matches LoaderEvent::Loaded { generation, frame } ==> {
            &&& frame.showable()
            &&& total(without(self.frames, frame.path.key())) + frame.pixels@.len() <= usize::MAX
        }
    }

    /// Without the current image; the next one takes its place, or the one before it.
    pub open spec fn forgetting(self) -> ViewerState {
        let paths = self.paths.remove(self.index);
        let frames = without(self.frames, self.current_key());
        if paths.len() == 0 {
            ViewerState { paths, frames, ..self }
        } else {
            ViewerState {
                paths,
                frames,
                index: if self.index < paths.len() {
                    self.index
                } else {
                    paths.len() - 1
                },
                generation: self.generation + 1,
                ..self
            }
        }
    }

    /// With the edits undone.
    pub open spec fn unedited(self, width: int, height: int) -> ViewerState {
        let upright = ViewerState { rotation: 0, ..self };
        if self.loaded() {
            upright.unresized(self.frame()).presenting(self.frame(), width, height).dimensioned(
                self.frame(),
            )
        } else {
            upright
        }
    }

    /// Turned by a number of quarter turns.
    pub open spec fn turned(self, delta: int, width: int, height: int) -> ViewerState {
        let turned = ViewerState { rotation: (self.rotation + delta) % 4, ..self };
        if self.loaded() {
            turned.presenting(self.frame(), width, height).dimensioned(self.frame())
        } else {
            turned
        }
    }
}

fn deduplicate(paths: Vec<ImagePath>) -> (r: Vec<ImagePath>)
    ensures
        path_views(r@) == deduplicated(path_views(paths@)),
{
    let mut r: Vec<ImagePath> = Vec::new();
    let mut i: usize = 0;
    assert(path_views(r@) =~= seq![]);
    assert(path_views(paths@).take(0) =~= seq![]);
    while i < paths.len()
        invariant
            i <= paths.len(),
            path_views(r@) == deduplicated(path_views(paths@).take(i as int)),
        decreases paths.len() - i,
    {
        let ghost done = path_views(paths@).take(i + 1);
        assert(done.drop_last() =~= path_views(paths@).take(i as int));
        assert(done.last() == paths[i as int]@);
        let repeated: bool = r.len() > 0 && r[r.len() - 1].same(&paths[i]);
        let ghost before = r@;
        assert(before.len() > 0 ==> path_views(before).last() == before.last()@);
        if !repeated {
            r.push(paths[i].clone());
            assert(path_views(r@) =~= path_views(before).push(paths[i as int]@));
        }
        i = i + 1;
    }
    assert(path_views(paths@).take(paths@.len() as int) =~= path_views(paths@));
    r
}

impl Viewer {
    pub open spec fn well_formed(&self) -> bool {
        &&& self@.valid()
        &&& self.cache.well_formed()
    }

    /// A viewer of a folder, which shows nothing yet.
    pub fn new(paths: Vec<ImagePath>, index: usize, cache_bytes: usize) -> (r: Self)
        requires
            index < paths.len() <= i32::MAX,
        ensures
            r.well_formed(),
            r@ == (ViewerState {
                paths: path_views(paths@),
                index: index as int,
                direction: 1,
                generation: 1,
                canvas: CanvasState {
                    texture: None,
                    zoom: whole(0),
                    fit_zoom: whole(0),
                    source_width: 0,
                    source_height: 0,
                    decoded_scale: whole(0),
                },
                limit: cache_bytes as nat,
                frames: seq![],
                rotation: 0,
                resize_limit: 100_000,
                resize_edge: whole(1),
                title: seq![],
                status: seq![],
                info: seq![],
                metadata: seq![],
                edit_dimensions: seq![],
                info_visible: false,
                metadata_shown: false,
                edit_shown: false,
                skip_delete_confirmation: false,
            }),
    {
        let viewer = Viewer {
            paths,
            index,
            direction: 1,
            generation: 1,
            canvas: ImageCanvas::new(),
            cache: FrameCache::new(cache_bytes),
            edit_rotation: 0,
            resize_limit: 100_000,
            resize_edge: Binary64::from_i32(1),
            title: String::new(),
            status: String::new(),
            info: String::new(),
            metadata: String::new(),
            edit_dimensions: String::new(),
            info_visible: false,
            metadata_shown: false,
            edit_shown: false,
            skip_delete_confirmation: false,
        };
        assert(viewer@.title =~= seq![]);
        assert(viewer@.frames =~= seq![]);
        viewer
    }

    /// The path of the current image.
    pub fn current_path(&self) -> (r: &ImagePath)
        requires
            self.well_formed(),
        ensures
            r@ == self@.current(),
    {
        &self.paths[self.index]
    }

    fn update_title(&mut self)
        requires
            old(self).well_formed(),
        ensures
            final(self)@ == old(self)@.titled(),
            final(self).cache == old(self).cache,
    {
        let mut title: String = self.current_path().name_or("image");
        title.append("  —  ");
        title.append(format_u64(self.index as u64 + 1).as_str());
        title.append(" / ");
        title.append(format_u64(self.paths.len() as u64).as_str());
        self.title = title;
    }

    /// Says what is shown, if the current image is decoded.
    pub fn update_info(&mut self, view: ViewSize)
        requires
            old(self).well_formed(),
        ensures
            final(self).well_formed(),
            final(self)@ == old(self)@.informed(view.width as int, view.height as int),
            final(self).cache == old(self).cache,
    {
        match self.cache.peek(&self.paths[self.index]) {
            None => {},
            Some(frame) => {
                let zoom: Binary64 = match self.canvas.effective_zoom(view.width, view.height) {
                    Some(zoom) => zoom,
                    None => Binary64::from_i32(1),
                };
                let mut info: String = frame.path.name_or("image");
                info.append("\n");
                info.append(format_i32(frame.source_width).as_str());
                info.append(" × ");
                info.append(format_i32(frame.source_height).as_str());
                info.append(" · ");
                info.append(frame.file_type.as_str());
                info.append(" · ");
                info.append(format_zoom(zoom).as_str());
                self.info = info;
            },
        }
    }

    fn update_edit_dimensions(&mut self, frame: &DecodedFrame)
        ensures
            final(self)@ == old(self)@.dimensioned(*frame),
            final(self).cache == old(self).cache,
    {
        let (width, height): (i32, i32) = edited_dimensions(
            frame.source_width,
            frame.source_height,
            self.edit_rotation,
            self.resize_edge.to_i32(),
        );
        let mut text: String = "Output: ".to_owned();
        text.append(format_i32(width).as_str());
        text.append(" × ");
        text.append(format_i32(height).as_str());
        self.edit_dimensions = text;
    }

    fn unresize(&mut self, frame: &DecodedFrame)
        ensures
            final(self)@ == old(self)@.unresized(*frame),
            final(self).cache == old(self).cache,
    {
        let edge: i32 = if frame.source_width > frame.source_height {
            frame.source_width
        } else {
            frame.source_height
        };
        self.resize_limit = edge;
        self.resize_edge = Binary64::from_i32(edge);
    }

    fn present_frame(&mut self, frame: &DecodedFrame, view: ViewSize) -> (texture: Texture)
        requires
            old(self).well_formed(),
            frame.showable(),
        ensures
            final(self).well_formed(),
            final(self)@ == old(self)@.presenting(*frame, view.width as int, view.height as int),
            final(self).cache == old(self).cache,
            texture.shows(*frame, old(self)@.rotation),
    {
        let rotation: u8 = self.edit_rotation;
        let texture: Texture = texture_for_rotation(frame, rotation);
        let (source_width, source_height): (i32, i32) = if rotation % 2 == 0 {
            (frame.source_width, frame.source_height)
        } else {
            (frame.source_height, frame.source_width)
        };
        self.canvas.set_texture(
            TextureSize { width: texture.width, height: texture.height },
            source_width,
            source_height,
        );
        self.update_info(view);
        self.metadata = frame.metadata.clone();
        if self.edit_shown {
            self.update_edit_dimensions(frame);
        }
        texture
    }

    /// The paths that the loader has to decode now.
    fn request_prefetch(&self) -> (r: LoaderCommand)
        requires
            self.well_formed(),
        ensures
            self@.asks(Some(r)),
    {
        let mut requested: Vec<ImagePath> = Vec::new();
        requested.push(self.current_path().clone());
        let offsets: [i32; 3] = if self.direction >= 0 {
            [1, 2, -1]
        } else {
            [-1, -2, 1]
        };
        let ghost all = prefetch_offsets(self@.direction);
        assert(path_views(requested@) =~= seq![self@.current()] + self@.missing(all.take(0)));
        let mut i: usize = 0;
        while i < 3
            invariant
                i <= 3,
                self.well_formed(),
                all == prefetch_offsets(self@.direction),
                offsets@.len() == 3,
                forall|j: int| 0 <= j < 3 ==> offsets@[j] == all[j],
                path_views(requested@) == seq![self@.current()] + self@.missing(all.take(i as int)),
            decreases 3 - i,
        {
            let offset: i32 = offsets[i];
            assert(-2 <= offset <= 2);
            let candidate: i64 = self.index as i64 + offset as i64;
            let ghost before = requested@;
            assert(all.take(i + 1).drop_last() =~= all.take(i as int));
            assert(all.take(i + 1).last() == offset);
            if candidate >= 0 && candidate < self.paths.len() as i64 {
                let path: &ImagePath = &self.paths[candidate as usize];
                if !self.cache.contains(path) {
                    requested.push(path.clone());
                    assert(path_views(requested@) =~= path_views(before).push(path@));
                }
            }
            i = i + 1;
            assert(path_views(requested@) =~= seq![self@.current()] + self@.missing(
                all.take(i as int),
            ));
        }
        assert(all.take(3) =~= all);
        LoaderCommand::Batch { generation: self.generation, paths: deduplicate(requested) }
    }

    /// Shows the current image if it is decoded, and asks for what is missing.
    pub fn show_or_load(&mut self, view: ViewSize) -> (r: Update)
        requires
            old(self).well_formed(),
        ensures
            final(self).well_formed(),
            final(self)@ == old(self)@.shown_or_loading(view.width as int, view.height as int),
            final(self)@.updates(r),
    {
        let ghost start = self@;
        let current: ImagePath = self.current_path().clone();
        proof {
            other_frames_are_kept(start.frames, start.current_key(), start.current_key());
            lemma_touched_showable(start.frames, start.current_key());
        }
        self.edit_rotation = 0;
        self.update_title();
        let texture: Option<Texture> = match self.cache.get(&current) {
            Some(frame) => {
                self.unresize(&frame);
                let texture: Texture = self.present_frame(&frame, view);
                self.status = String::new();
                assert(self@.status =~= seq![]);
                Some(texture)
            },
            None => {
                self.status = "Loading…".to_owned();
                None
            },
        };
        let request: LoaderCommand = self.request_prefetch();
        Update { texture, request: Some(request), close: false }
    }

    /// Goes `delta` images further, at most to the first or the last one.
    pub fn move_by(&mut self, delta: i32, view: ViewSize) -> (r: Option<Update>)
        requires
            old(self).well_formed(),
            i32::MIN <= old(self).index + delta <= i32::MAX,
            old(self).generation < u64::MAX,
        ensures
            final(self).well_formed(),
            r is None <==> old(self)@.place_by(delta as int) == old(self)@.index,
            r is None ==> final(self)@ == old(self)@,
            final(self)@ == old(self)@.moved_by(
                delta as int,
                view.width as int,
                view.height as int,
            ),
            r matches Some(update) ==> {
                let direction: int = if delta > 0 {
                    1
                } else {
                    -1
                };
                &&& final(self)@ == old(self)@.at(
                    old(self)@.place_by(delta as int),
                    direction,
                ).shown_or_loading(view.width as int, view.height as int)
                &&& final(self)@.updates(update)
            },
    {
        let last: i32 = self.paths.len() as i32 - 1;
        let target: i32 = self.index as i32 + delta;
        let next: i32 = if target < 0 {
            0
        } else if target > last {
            last
        } else {
            target
        };
        if next as usize == self.index {
            return None;
        }
        self.direction = if delta > 0 {
            1
        } else {
            -1
        };
        self.index = next as usize;
        self.generation = self.generation + 1;
        Some(self.show_or_load(view))
    }

    /// Goes to an image by its place, at most to the last one.
    pub fn move_to(&mut self, index: usize, view: ViewSize) -> (r: Option<Update>)
        requires
            old(self).well_formed(),
            old(self).generation < u64::MAX,
        ensures
            final(self).well_formed(),
            r is None <==> index == old(self)@.index,
            r is None ==> final(self)@ == old(self)@,
            final(self)@ == old(self)@.moved_to(
                index as int,
                view.width as int,
                view.height as int,
            ),
            r matches Some(update) ==> {
                let place: int = if index < old(self)@.paths.len() {
                    index as int
                } else {
                    old(self)@.paths.len() - 1
                };
                let direction: int = if index > old(self)@.index {
                    1
                } else {
                    -1
                };
                &&& final(self)@ == old(self)@.at(place, direction).shown_or_loading(
                    view.width as int,
                    view.height as int,
                )
                &&& final(self)@.updates(update)
            },
    {
        if index == self.index {
            return None;
        }
        self.direction = if index > self.index {
            1
        } else {
            -1
        };
        self.index = if index < self.paths.len() {
            index
        } else {
            self.paths.len() - 1
        };
        self.generation = self.generation + 1;
        Some(self.show_or_load(view))
    }

    /// Takes what the loader tells. A frame is cached; it is shown if it is awaited.
    pub fn accept(&mut self, event: LoaderEvent, view: ViewSize) -> (r: Option<Texture>)
        requires
            old(self).well_formed(),
            old(self)@.acceptable(event),
        ensures
            final(self).well_formed(),
            final(self)@ == old(self)@.accepting(event, view.width as int, view.height as int),
            match event {
                LoaderEvent::Loaded { generation, frame } => {
                    &&& r is Some <==> old(self)@.expects(generation, frame.path.key())
                    &&& r matches Some(texture) ==> texture.shows(frame, old(self)@.rotation)
                },
                LoaderEvent::Failed { .. } => r is None,
            },
    {
        let ghost start = self@;
        match event {
            LoaderEvent::Loaded { generation, frame } => {
                let ghost cached = start.caching(frame);
                let ghost arrived = frame;
                let current: ImagePath = self.current_path().clone();
                let is_current: bool = frame.path.same(&current);
                proof {
                    lemma_caching_sound(start, frame);
                    lemma_touched_showable(cached.frames, start.current_key());
                    if frame.path.key() == start.current_key() {
                        protected_frame_is_read_back(start.frames, start.limit, Arc::new(frame));
                    }
                    other_frames_are_kept(cached.frames, start.current_key(), start.current_key());
                }
                self.cache.insert(frame, &current);
                if is_current && generation == self.generation {
                    match self.cache.get(&current) {
                        Some(frame) => {
                            assert(*frame == arrived);
                            self.unresize(&frame);
                            let texture: Texture = self.present_frame(&frame, view);
                            self.status = String::new();
                            assert(self@.status =~= seq![]);
                            Some(texture)
                        },
                        None => None,
                    }
                } else {
                    None
                }
            },
            LoaderEvent::Failed { generation, path, message } => {
                if generation == self.generation && path.same(self.current_path()) {
                    let mut text: String = "Could not load: ".to_owned();
                    text.append(message.as_str());
                    self.status = text;
                }
                None
            },
        }
    }
}

/// A number of quarter turns after some more.
fn turned_by(rotation: u8, delta: i8) -> (r: u8)
    requires
        i8::MIN <= rotation + delta <= i8::MAX,
    ensures
        r < 4,
        r == (rotation as int + delta as int) % 4,
{
    let turns: i16 = rotation as i16 + delta as i16;
    ((turns + 128) % 4) as u8
}

impl Viewer {
    /// Shows what is said of the image, or hides it.
    pub fn toggle_info(&mut self, view: ViewSize)
        requires
            old(self).well_formed(),
        ensures
            final(self).well_formed(),
            final(self)@ == (ViewerState {
                info_visible: !old(self)@.info_visible,
                ..old(self)@.informed(view.width as int, view.height as int)
            }),
            final(self)@ == old(self)@.info_toggled(view.width as int, view.height as int),
    {
        self.update_info(view);
        self.info_visible = !self.info_visible;
    }

    /// Goes to the next zoom level.
    pub fn zoom_in(&mut self, view: ViewSize)
        requires
            old(self).well_formed(),
        ensures
            final(self).well_formed(),
            final(self)@ == (ViewerState {
                canvas: old(self)@.canvas.zoomed_in(view.width as int, view.height as int),
                ..old(self)@
            }).informed(view.width as int, view.height as int),
            final(self)@ == old(self)@.with_canvas(
                old(self)@.canvas.zoomed_in(view.width as int, view.height as int),
                view.width as int,
                view.height as int,
            ),
    {
        self.canvas.zoom_in(view.width, view.height);
        self.update_info(view);
    }

    /// Goes to the previous zoom level, or back to the fitting zoom.
    pub fn zoom_out(&mut self, view: ViewSize)
        requires
            old(self).well_formed(),
        ensures
            final(self).well_formed(),
            final(self)@ == (ViewerState {
                canvas: old(self)@.canvas.zoomed_out(),
                ..old(self)@
            }).informed(view.width as int, view.height as int),
            final(self)@ == old(self)@.with_canvas(
                old(self)@.canvas.zoomed_out(),
                view.width as int,
                view.height as int,
            ),
    {
        self.canvas.zoom_out();
        self.update_info(view);
    }

    /// Fits the image into the view.
    pub fn zoom_fit(&mut self, view: ViewSize)
        requires
            old(self).well_formed(),
        ensures
            final(self).well_formed(),
            final(self)@ == (ViewerState {
                canvas: old(self)@.canvas.fitted(),
                ..old(self)@
            }).informed(view.width as int, view.height as int),
            final(self)@ == old(self)@.with_canvas(
                old(self)@.canvas.fitted(),
                view.width as int,
                view.height as int,
            ),
    {
        self.canvas.zoom_fit();
        self.update_info(view);
    }

    /// Opens the metadata panel in place of the edit panel, or closes it.
    pub fn toggle_metadata(&mut self)
        requires
            old(self).well_formed(),
        ensures
            final(self).well_formed(),
            final(self)@ == (ViewerState {
                metadata_shown: !old(self)@.metadata_shown,
                edit_shown: old(self)@.edit_shown && old(self)@.metadata_shown,
                ..old(self)@
            }),
            final(self)@ == old(self)@.metadata_toggled(),
    {
        let reveal: bool = !self.metadata_shown;
        self.metadata_shown = reveal;
        if reveal {
            self.edit_shown = false;
        }
    }

    /// Opens the edit panel in place of the metadata panel, without edits, or closes it.
    pub fn toggle_edit(&mut self, view: ViewSize) -> (r: Option<Texture>)
        requires
            old(self).well_formed(),
        ensures
            final(self).well_formed(),
            final(self)@ == old(self)@.edit_toggled(view.width as int, view.height as int),
            old(self)@.edit_shown ==> r is None && final(self)@ == (ViewerState {
                edit_shown: false,
                ..old(self)@
            }),
            !old(self)@.edit_shown ==> {
                &&& final(self)@ == (ViewerState {
                    edit_shown: true,
                    metadata_shown: false,
                    ..old(self)@
                }).unedited(view.width as int, view.height as int)
                &&& r is Some <==> old(self)@.loaded()
                &&& r matches Some(texture) ==> texture.shows(old(self)@.frame(), 0)
            },
    {
        let reveal: bool = !self.edit_shown;
        if reveal {
            self.metadata_shown = false;
            self.edit_shown = true;
            self.reset_edits(view)
        } else {
            self.edit_shown = false;
            None
        }
    }

    /// Undoes the edits of the current image.
    pub fn reset_edits(&mut self, view: ViewSize) -> (r: Option<Texture>)
        requires
            old(self).well_formed(),
        ensures
            final(self).well_formed(),
            final(self)@ == old(self)@.unedited(view.width as int, view.height as int),
            r is Some <==> old(self)@.loaded(),
            r matches Some(texture) ==> texture.shows(old(self)@.frame(), 0),
    {
        let ghost start = self@;
        proof {
            lemma_touched_showable(start.frames, start.current_key());
        }
        self.edit_rotation = 0;
        match self.cache.peek(&self.paths[self.index]) {
            Some(frame) => {
                self.unresize(&frame);
                let texture: Texture = self.present_frame(&frame, view);
                self.update_edit_dimensions(&frame);
                Some(texture)
            },
            None => None,
        }
    }

    /// Turns the current image by quarter turns.
    pub fn rotate_edit(&mut self, delta: i8, view: ViewSize) -> (r: Option<Texture>)
        requires
            old(self).well_formed(),
            i8::MIN <= old(self).edit_rotation + delta <= i8::MAX,
        ensures
            final(self).well_formed(),
            final(self)@ == old(self)@.turned(delta as int, view.width as int, view.height as int),
            r is Some <==> old(self)@.loaded(),
            r matches Some(texture) ==> texture.shows(old(self)@.frame(), final(self)@.rotation),
    {
        let ghost start = self@;
        proof {
            lemma_touched_showable(start.frames, start.current_key());
        }
        self.edit_rotation = turned_by(self.edit_rotation, delta);
        match self.cache.peek(&self.paths[self.index]) {
            Some(frame) => {
                let texture: Texture = self.present_frame(&frame, view);
                self.update_edit_dimensions(&frame);
                Some(texture)
            },
            None => None,
        }
    }

    /// Takes the longer edge that has been chosen for an edited copy.
    pub fn choose_edge(&mut self, edge: Binary64)
        requires
            old(self).well_formed(),
        ensures
            final(self).well_formed(),
            final(self)@ == {
                let chosen = ViewerState { resize_edge: edge@, ..old(self)@ };
                if old(self)@.loaded() {
                    chosen.dimensioned(old(self)@.frame())
                } else {
                    chosen
                }
            },
            final(self)@ == old(self)@.resized(edge@),
    {
        self.resize_edge = edge;
        match self.cache.peek(&self.paths[self.index]) {
            Some(frame) => self.update_edit_dimensions(&frame),
            None => {},
        }
    }

    /// Says that the bitmap is copied, if there is one.
    pub fn copy_bitmap(&mut self) -> (r: bool)
        ensures
            r == (old(self)@.canvas.texture is Some),
            !r ==> *final(self) == *old(self),
            r ==> final(self)@ == (ViewerState { status: "Bitmap copied"@, ..old(self)@ }),
            final(self).cache == old(self).cache,
    {
        if self.canvas.texture.is_none() {
            return false;
        }
        self.status = "Bitmap copied".to_owned();
        true
    }

    /// The file name that is copied.
    pub fn copy_filename(&mut self) -> (r: String)
        requires
            old(self).well_formed(),
        ensures
            final(self).well_formed(),
            r@ == text_or(file_name(old(self)@.current()), "image"@),
            final(self)@ == (ViewerState { status: "Filename copied"@, ..old(self)@ }),
    {
        let name: String = self.current_path().name_or("image");
        self.status = "Filename copied".to_owned();
        name
    }

    /// Says that no application could be chosen for the current image.
    pub fn open_failed(&mut self, error: &str)
        ensures
            final(self)@ == (ViewerState {
                status: "Could not open application chooser: "@ + error@,
                ..old(self)@
            }),
            final(self).cache == old(self).cache,
    {
        let mut text: String = "Could not open application chooser: ".to_owned();
        text.append(error);
        self.status = text;
    }

    /// The frame to print, if the current image is decoded.
    pub fn print(&mut self) -> (r: Option<Arc<DecodedFrame>>)
        requires
            old(self).well_formed(),
        ensures
            final(self).well_formed(),
            r is Some <==> old(self)@.loaded(),
            r matches Some(frame) ==> *frame == old(self)@.frame() && final(self)@ == old(self)@,
            r is None ==> final(self)@ == (ViewerState {
                status: "Wait for the image to finish loading"@,
                ..old(self)@
            }),
    {
        match self.cache.peek(&self.paths[self.index]) {
            Some(frame) => Some(frame),
            None => {
                self.status = "Wait for the image to finish loading".to_owned();
                None
            },
        }
    }

    /// Lets the current image go, which has been deleted.
    pub fn forget_current_image(&mut self, view: ViewSize) -> (r: Update)
        requires
            old(self).well_formed(),
            old(self).generation < u64::MAX,
        ensures
            final(self).cache.well_formed(),
            final(self)@.sound(),
            old(self)@.paths.len() == 1 ==> {
                &&& final(self)@ == old(self)@.forgetting()
                &&& r.close && r.texture is None && r.request is None
            },
            old(self)@.paths.len() > 1 ==> {
                &&& final(self).well_formed()
                &&& final(self)@ == old(self)@.forgetting().shown_or_loading(
                    view.width as int,
                    view.height as int,
                )
                &&& final(self)@.updates(r)
            },
    {
        let ghost start = self@;
        let ghost all = self.paths@;
        proof {
            lemma_touched_showable(start.frames, start.current_key());
            remaining_frames_are_distinct(start.frames, start.current_key());
        }
        let removed: ImagePath = self.paths.remove(self.index);
        assert(path_views(self.paths@) =~= start.paths.remove(start.index));
        self.cache.remove(&removed);
        if self.paths.len() == 0 {
            return Update { texture: None, request: None, close: true };
        }
        if self.index >= self.paths.len() {
            self.index = self.paths.len() - 1;
        }
        self.generation = self.generation + 1;
        assert(self@ == start.forgetting());
        self.show_or_load(view)
    }
}

/// Looking a frame up leaves all frames showable.
proof fn lemma_touched_showable(frames: Seq<Arc<DecodedFrame>>, path: Components)
    requires
        distinct(frames),
        forall|i: int| 0 <= i < frames.len() ==> (#[trigger] frames[i]).showable(),
    ensures
        distinct(touched(frames, path)),
        forall|i: int|
            0 <= i < touched(frames, path).len() ==> (#[trigger] touched(frames, path)[i]).showable(),
        forall|i: int|
            0 <= i < without(frames, path).len() ==> (#[trigger] without(frames, path)[i]).showable(),
        holds(frames, path) ==> 0 <= place_of(frames, path) < frames.len(),
{
    other_frames_are_kept(frames, path, path);
    if holds(frames, path) {
        let k = place_of(frames, path);
        assert(found_at(frames, path, k));
        let rest = frames.remove(k);
        assert forall|i: int| 0 <= i < rest.len() implies (#[trigger] rest[i]).showable() by {
            if i < k {
                assert(rest[i] == frames[i]);
            } else {
                assert(rest[i] == frames[i + 1]);
            }
        }
        let moved = touched(frames, path);
        assert forall|i: int| 0 <= i < moved.len() implies (#[trigger] moved[i]).showable() by {
            if i < rest.len() {
                assert(moved[i] == rest[i]);
            } else {
                assert(moved[i] == frames[k]);
            }
        }
    }
}

/// Caching a frame leaves all frames showable.
proof fn lemma_caching_sound(state: ViewerState, frame: DecodedFrame)
    requires
        state.sound(),
        frame.showable(),
    ensures
        state.caching(frame).sound(),
{
    let rest = without(state.frames, frame.path.key());
    lemma_touched_showable(state.frames, frame.path.key());
    let all = rest.push(Arc::new(frame));
    cached_frames_are_distinct(state.frames, Arc::new(frame));
    limit_is_kept(all, state.limit, state.current_key());
    let stay = state.caching(frame).frames;
    assert forall|i: int| 0 <= i < stay.len() implies (#[trigger] stay[i]).showable() by {
        eviction_adds_nothing(all, state.limit, state.current_key(), i);
        let j = choose|j: int| 0 <= j < all.len() && all[j] == stay[i];
        if j < rest.len() {
            assert(all[j] == rest[j]);
        }
    }
}

/// Moving away from an image outdates what has been asked for it: an event of an earlier request
/// changes nothing but the cache.
pub proof fn outdated_events_change_only_the_cache(
    state: ViewerState,
    event: LoaderEvent,
    width: int,
    height: int,
)
    requires
        match event {
            LoaderEvent::Loaded { generation, .. } => generation < state.generation,
            LoaderEvent::Failed { generation, .. } => generation < state.generation,
        },
    ensures
        state.accepting(event, width, height) == (ViewerState {
            frames: state.accepting(event, width, height).frames,
            ..state
        }),
        event is Failed ==> state.accepting(event, width, height) == state,
{
}

/// Every move, and every deletion that leaves an image, begins a new generation, so that all
/// requests before it are outdated.
pub proof fn moving_outdates_requests(
    state: ViewerState,
    index: int,
    direction: int,
    generation: u64,
    path: Components,
    width: int,
    height: int,
)
    requires
        state.valid(),
        generation <= state.generation,
    ensures
        !state.at(index, direction).shown_or_loading(width, height).expects(generation, path),
        state.paths.len() > 1 ==> !state.forgetting().shown_or_loading(width, height).expects(
            generation,
            path,
        ),
{
}

/// The current image is never evicted, whatever the loader sends.
pub proof fn current_image_stays(
    state: ViewerState,
    event: LoaderEvent,
    width: int,
    height: int,
)
    requires
        state.valid(),
        state.loaded(),
        state.acceptable(event),
        event matches LoaderEvent::Loaded { generation, frame } ==> frame.path.key() != state.current_key(),
    ensures
        state.accepting(event, width, height).loaded(),
        state.accepting(event, width, height).frame() == state.frame(),
{
    if let LoaderEvent::Loaded { generation, frame } = event {
        let path = state.current_key();
        other_frames_are_kept(state.frames, frame.path.key(), path);
        let rest = without(state.frames, frame.path.key());
        let all = rest.push(Arc::new(frame));
        cached_frames_are_distinct(state.frames, Arc::new(frame));
        push_keeps_others(rest, Arc::new(frame), path);
        protected_frame_stays(all, state.limit, path);
    }
}

/// The frame that is awaited is kept, whatever its size, and shown, fitted into the view.
pub proof fn awaited_frame_is_shown(
    state: ViewerState,
    generation: u64,
    frame: DecodedFrame,
    width: int,
    height: int,
)
    requires
        state.valid(),
        state.expects(generation, frame.path.key()),
        state.acceptable(LoaderEvent::Loaded { generation, frame }),
    ensures
        ({
            let after = state.accepting(LoaderEvent::Loaded { generation, frame }, width, height);
            &&& after.loaded()
            &&& after.frame() == frame
            &&& after.status == Seq::<char>::empty()
            &&& after.metadata == frame.metadata@
            &&& after.canvas.texture is Some
            &&& after.canvas.zoom == whole(0)
        }),
{
    let cached = state.caching(frame);
    protected_frame_is_read_back(state.frames, state.limit, Arc::new(frame));
    lemma_caching_sound(state, frame);
    other_frames_are_kept(cached.frames, state.current_key(), state.current_key());
}

/// The cache stays bounded: after every event of the loader that brings a frame its bytes are within
/// the limit, or a single frame is left.
pub proof fn cache_stays_bounded(
    state: ViewerState,
    generation: u64,
    frame: DecodedFrame,
    width: int,
    height: int,
)
    requires
        state.valid(),
        state.acceptable(LoaderEvent::Loaded { generation, frame }),
    ensures
        ({
            let after = state.accepting(LoaderEvent::Loaded { generation, frame }, width, height);
            total(after.frames) <= state.limit || after.frames.len() <= 1
        }),
{
    let all = without(state.frames, frame.path.key()).push(Arc::new(frame));
    cached_frames_are_distinct(state.frames, Arc::new(frame));
    limit_is_kept(all, state.limit, state.current_key());
    let cached = state.caching(frame);
    other_frames_are_kept(cached.frames, state.current_key(), state.current_key());
    lemma_touched_count(cached.frames, state.current_key());
}

proof fn lemma_touched_count(frames: Seq<Arc<DecodedFrame>>, path: Components)
    ensures
        touched(frames, path).len() == frames.len(),
{
    if holds(frames, path) {
        assert(found_at(frames, path, place_of(frames, path)));
    }
}

/// A move stays inside the folder, and a move that is not cut short is undone by the move back.
pub proof fn moves_undo_each_other(
    state: ViewerState,
    delta: int,
    direction: int,
    width: int,
    height: int,
)
    requires
        state.valid(),
    ensures
        0 <= state.place_by(delta) < state.paths.len(),
        state.place_by(delta) == state.index + delta ==> state.at(
            state.place_by(delta),
            direction,
        ).shown_or_loading(width, height).place_by(-delta) == state.index,
{
}

/// The image that is shown after a deletion is the next one, or the one before it where there is
/// none; the deleted one is neither listed at its place nor cached any more.
pub proof fn deletion_goes_on(state: ViewerState)
    requires
        state.valid(),
        state.paths.len() > 1,
    ensures
        ({
            let after = state.forgetting();
            &&& after.paths.len() == state.paths.len() - 1
            &&& 0 <= after.index < after.paths.len()
            &&& after.current() == if state.index + 1 < state.paths.len() {
                state.paths[state.index + 1]
            } else {
                state.paths[state.index - 1]
            }
            &&& !holds(after.frames, state.current_key())
        }),
{
    remaining_frames_are_distinct(state.frames, state.current_key());
}

/// Quarter turns of an edited image add up, so that a turn to the left undoes one to the right.
#[verifier::spinoff_prover]
pub proof fn edits_add_up(state: ViewerState, first: int, second: int, width: int, height: int)
    requires
        state.valid(),
    ensures
        state.turned(first, width, height).turned(second, width, height).rotation == state.turned(
            first + second,
            width,
            height,
        ).rotation,
        state.turned(first, width, height).turned(-first, width, height).rotation == state.rotation,
        state.turned(4, width, height).rotation == state.rotation,
{
    let once = state.turned(first, width, height);
    lemma_turned_rotation(state, first, width, height);
    lemma_turned_rotation(state, first + second, width, height);
    lemma_turned_rotation(state, 4, width, height);
    lemma_turned_rotation(once, second, width, height);
    lemma_turned_rotation(once, -first, width, height);
    lemma_turns(state.rotation, first, second);
}

proof fn lemma_turns(rotation: int, first: int, second: int)
    requires
        0 <= rotation < 4,
    ensures
        ((rotation + first) % 4 + second) % 4 == (rotation + (first + second)) % 4,
        ((rotation + first) % 4 + -first) % 4 == rotation,
        (rotation + 4) % 4 == rotation,
{
}

proof fn lemma_turned_rotation(state: ViewerState, delta: int, width: int, height: int)
    ensures
        state.turned(delta, width, height).rotation == (state.rotation + delta) % 4,
{
}

/// Without edits a copy has the size of its source.
pub proof fn unedited_copy_keeps_its_size(state: ViewerState, width: int, height: int)
    requires
        state.valid(),
        state.loaded(),
    ensures
        state.unedited(width, height).edit_dimensions == dimensions_text(
            (state.frame().source_width as int, state.frame().source_height as int),
        ),
{
    let edge = source_edge(state.frame());
    lemma_truncated_whole(edge);
}

/// The current image is asked for first.
pub proof fn current_image_is_requested_first(state: ViewerState)
    ensures
        state.requested().len() > 0,
        state.requested()[0] == state.current(),
{
    lemma_deduplicated_first(seq![state.current()] + state.missing(prefetch_offsets(state.direction)));
}

proof fn lemma_deduplicated_first(paths: Seq<Seq<u8>>)
    requires
        paths.len() > 0,
    ensures
        deduplicated(paths).len() > 0,
        deduplicated(paths)[0] == paths[0],
    decreases paths.len(),
{
    if paths.len() > 1 {
        lemma_deduplicated_first(paths.drop_last());
    } else {
        assert(deduplicated(paths.drop_last()) == Seq::<Seq<u8>>::empty());
    }
}

/// Whether a listing has a path with the given components.
pub open spec fn lists(paths: Seq<Seq<u8>>, key: Components) -> bool {
    exists|i: int| 0 <= i < paths.len() && components(#[trigger] paths[i]) == key
}

proof fn lemma_deduplicated(paths: Seq<Seq<u8>>, key: Components)
    ensures
        lists(deduplicated(paths), key) <==> lists(paths, key),
        deduplicated(paths).len() <= paths.len(),
        forall|i: int|
            0 < i < deduplicated(paths).len() ==> components(deduplicated(paths)[i - 1])
                != components(#[trigger] deduplicated(paths)[i]),
    decreases paths.len(),
{
    if paths.len() > 0 {
        let before = paths.drop_last();
        lemma_deduplicated(before, key);
        let kept = deduplicated(before);
        let all = deduplicated(paths);
        if lists(paths, key) {
            let i = choose|i: int| 0 <= i < paths.len() && components(#[trigger] paths[i]) == key;
            if i < before.len() {
                assert(components(before[i]) == key);
                let k = choose|k: int| 0 <= k < kept.len() && components(#[trigger] kept[k]) == key;
                assert(components(all[k]) == key);
            } else {
                assert(components(all[all.len() - 1]) == key);
            }
        }
        if lists(all, key) {
            let k = choose|k: int| 0 <= k < all.len() && components(#[trigger] all[k]) == key;
            if k < kept.len() {
                assert(components(kept[k]) == key);
                let i = choose|i: int|
                    0 <= i < before.len() && components(#[trigger] before[i]) == key;
                assert(components(paths[i]) == key);
            } else {
                assert(components(paths[paths.len() - 1]) == key);
            }
        }
    }
}

impl ViewerState {
    /// Whether the path at a distance from the current one has the given components and is not
    /// decoded yet.
    pub open spec fn misses(self, offset: int, key: Components) -> bool {
        &&& 0 <= self.index + offset < self.paths.len()
        &&& components(self.paths[self.index + offset]) == key
        &&& !holds(self.frames, key)
    }
}

proof fn lemma_missing(state: ViewerState, offsets: Seq<int>, key: Components)
    ensures
        state.missing(offsets).len() <= offsets.len(),
        lists(state.missing(offsets), key) <==> exists|k: int|
            0 <= k < offsets.len() && #[trigger] state.misses(offsets[k], key),
    decreases offsets.len(),
{
    if offsets.len() > 0 {
        let before = offsets.drop_last();
        lemma_missing(state, before, key);
        let kept = state.missing(before);
        let all = state.missing(offsets);
        let last = offsets.len() - 1;
        if lists(all, key) {
            let i = choose|i: int| 0 <= i < all.len() && components(#[trigger] all[i]) == key;
            if i < kept.len() {
                assert(components(kept[i]) == key);
                let k = choose|k: int|
                    0 <= k < before.len() && #[trigger] state.misses(before[k], key);
                assert(state.misses(offsets[k], key));
            } else {
                assert(state.misses(offsets[last], key));
            }
        }
        if exists|k: int| 0 <= k < offsets.len() && #[trigger] state.misses(offsets[k], key) {
            let k = choose|k: int|
                0 <= k < offsets.len() && #[trigger] state.misses(offsets[k], key);
            if k < before.len() {
                assert(state.misses(before[k], key));
                let i = choose|i: int| 0 <= i < kept.len() && components(#[trigger] kept[i]) == key;
                assert(components(all[i]) == key);
            } else {
                assert(components(all[all.len() - 1]) == key);
            }
        }
    }
}

/// Exactly the current image and those of its neighbours that are not decoded are asked for:
/// two in the direction of travel and one behind. There are at most four requests, and no two in
/// a row for the same file.
pub proof fn only_missing_neighbours_are_requested(state: ViewerState, key: Components)
    ensures
        lists(state.requested(), key) <==> key == state.current_key() || exists|k: int|
            0 <= k < 3 && #[trigger] state.misses(prefetch_offsets(state.direction)[k], key),
        state.requested().len() <= 4,
        forall|i: int|
            0 < i < state.requested().len() ==> components(state.requested()[i - 1])
                != components(#[trigger] state.requested()[i]),
{
    let offsets = prefetch_offsets(state.direction);
    let missing = state.missing(offsets);
    let all = seq![state.current()] + missing;
    lemma_deduplicated(all, key);
    lemma_missing(state, offsets, key);
    if key == state.current_key() {
        assert(components(all[0]) == key);
    }
    if lists(missing, key) {
        let i = choose|i: int| 0 <= i < missing.len() && components(#[trigger] missing[i]) == key;
        assert(components(all[i + 1]) == key);
    }
    if lists(all, key) {
        let i = choose|i: int| 0 <= i < all.len() && components(#[trigger] all[i]) == key;
        if i > 0 {
            assert(components(missing[i - 1]) == key);
        }
    }
}

/// Whenever an image becomes the current one, the title is its file name, followed by its place and
/// the number of images, whether or not it is decoded. So it is after every move, and after every
/// deletion that leaves an image.
pub proof fn title_tells_the_place(
    state: ViewerState,
    index: int,
    direction: int,
    width: int,
    height: int,
)
    requires
        state.valid(),
    ensures
        ({
            let after = state.shown_or_loading(width, height);
            after.title == text_or(file_name(state.paths[state.index]), "image"@) + "  —  "@
                + decimal((state.index + 1) as nat) + " / "@ + decimal(state.paths.len())
        }),
        ({
            let after = state.at(index, direction).shown_or_loading(width, height);
            after.title == text_or(file_name(state.paths[index]), "image"@) + "  —  "@ + decimal(
                (index + 1) as nat,
            ) + " / "@ + decimal(state.paths.len())
        }),
        state.paths.len() > 1 ==> {
            let after = state.forgetting().shown_or_loading(width, height);
            let last = state.index + 1 == state.paths.len();
            let next = if last {
                state.index - 1
            } else {
                state.index + 1
            };
            let place = if last {
                state.index
            } else {
                state.index + 1
            };
            after.title == text_or(file_name(state.paths[next]), "image"@) + "  —  "@ + decimal(
                place as nat,
            ) + " / "@ + decimal((state.paths.len() - 1) as nat)
        },
{
    lemma_titled(state, width, height);
    lemma_titled(state.at(index, direction), width, height);
    if state.paths.len() > 1 {
        let left = state.forgetting();
        deletion_goes_on(state);
        lemma_titled(left, width, height);
        assert(left.index + 1 == if state.index + 1 == state.paths.len() {
            state.index
        } else {
            state.index + 1
        });
    }
}

proof fn lemma_titled(state: ViewerState, width: int, height: int)
    ensures
        state.shown_or_loading(width, height).title == text_or(
            file_name(state.paths[state.index]),
            "image"@,
        ) + "  —  "@ + decimal((state.index + 1) as nat) + " / "@ + decimal(state.paths.len()),
{
}

/// Showing a frame changes only what is said of it and the canvas.
proof fn lemma_presenting_keeps(
    state: ViewerState,
    frame: DecodedFrame,
    width: int,
    height: int,
)
    ensures
        ({
            let after = state.presenting(frame, width, height);
            after == (ViewerState {
                canvas: after.canvas,
                info: after.info,
                metadata: after.metadata,
                edit_dimensions: after.edit_dimensions,
                ..state
            })
        }),
{
}

/// A move goes to another image of the same listing and begins a new generation. It closes no panel
/// and leaves the limit of the cache, and which images are decoded, as they are. Edits of the image
/// before it are not taken over.
pub proof fn moving_keeps_the_listing(
    state: ViewerState,
    index: int,
    direction: int,
    width: int,
    height: int,
    path: Components,
)
    requires
        state.valid(),
        0 <= index < state.paths.len(),
    ensures
        ({
            let after = state.at(index, direction).shown_or_loading(width, height);
            &&& after.paths == state.paths
            &&& after.index == index
            &&& after.direction == direction
            &&& after.generation == state.generation + 1
            &&& after.limit == state.limit
            &&& after.rotation == 0
            &&& after.info_visible == state.info_visible
            &&& after.metadata_shown == state.metadata_shown
            &&& after.edit_shown == state.edit_shown
            &&& after.skip_delete_confirmation == state.skip_delete_confirmation
            &&& after.frames.len() == state.frames.len()
            &&& holds(after.frames, path) <==> holds(state.frames, path)
        }),
{
    let moved = state.at(index, direction);
    lemma_touched_count(moved.frames, moved.current_key());
    other_frames_are_kept(moved.frames, moved.current_key(), path);
}

/// The place that is reached by moving a distance: that far away if the listing reaches that far,
/// else its first or its last image.
pub proof fn moves_go_as_far_as_they_can(state: ViewerState, delta: int)
    requires
        state.valid(),
    ensures
        ({
            let place = state.place_by(delta);
            &&& 0 <= place <= state.paths.len() - 1
            &&& place < state.index + delta ==> place == state.paths.len() - 1
            &&& place > state.index + delta ==> place == 0
        }),
{
}

/// What is said of a decoded image that becomes the current one: it is fitted into the view, its
/// metadata is that of the frame, nothing is waited for, and it is not resized.
pub proof fn decoded_image_is_shown(state: ViewerState, width: int, height: int)
    requires
        state.valid(),
        state.loaded(),
    ensures
        ({
            let after = state.shown_or_loading(width, height);
            let frame = state.frame();
            let edge = if frame.source_width > frame.source_height {
                frame.source_width as int
            } else {
                frame.source_height as int
            };
            &&& after.status == Seq::<char>::empty()
            &&& after.metadata == frame.metadata@
            &&& after.canvas.texture == Some(
                TextureSize { width: frame.width, height: frame.height },
            )
            &&& after.canvas.source_width == frame.source_width
            &&& after.canvas.source_height == frame.source_height
            &&& after.canvas.zoom == whole(0)
            &&& after.rotation == 0
            &&& after.resize_limit == edge
            &&& after.resize_edge == whole(edge)
            &&& after.info == text_or(file_name(frame.path@), "image"@) + "\n"@ + decimal_signed(
                frame.source_width as int,
            ) + " × "@ + decimal_signed(frame.source_height as int) + " · "@ + frame.file_type@
                + " · "@ + zoom_text(
                fit_zoom(width, height, frame.source_width as int, frame.source_height as int),
            )
            &&& after.edit_shown ==> after.edit_dimensions == "Output: "@ + decimal_signed(
                frame.source_width as int,
            ) + " × "@ + decimal_signed(frame.source_height as int)
            &&& !after.edit_shown ==> after.edit_dimensions == state.edit_dimensions
        }),
{
    let frame = state.frame();
    lemma_current_frame(state);
    lemma_fitted_shown(state, frame, width, height);
    lemma_truncated_whole(source_edge(frame));
}

/// The frame of the current image is found under its path, and stays so when it is used.
proof fn lemma_current_frame(state: ViewerState)
    requires
        state.sound(),
        state.loaded(),
    ensures
        ({
            let used = touched(state.frames, state.current_key());
            &&& holds(used, state.current_key())
            &&& used[place_of(used, state.current_key())] == state.frames[place_of(
                state.frames,
                state.current_key(),
            )]
        }),
{
    other_frames_are_kept(state.frames, state.current_key(), state.current_key());
}

/// The canvas shows a new texture at the fitting zoom.
proof fn lemma_fitted_shown(state: ViewerState, frame: DecodedFrame, width: int, height: int)
    ensures
        ({
            let canvas = state.presenting(frame, width, height).canvas;
            canvas.shown_zoom(width, height) == Some(
                fit_zoom(width, height, canvas.source_width, canvas.source_height),
            )
        }),
{
    lemma_whole_exact(0);
}

/// While an image that becomes the current one is not decoded, it is waited for: the status says
/// so, and what is on the canvas and said of it stays.
pub proof fn missing_image_is_waited_for(state: ViewerState, width: int, height: int)
    requires
        state.valid(),
        !state.loaded(),
    ensures
        state.shown_or_loading(width, height) == (ViewerState {
            title: state.shown_or_loading(width, height).title,
            rotation: 0,
            status: "Loading…"@,
            ..state
        }),
{
}

/// After a turn of a decoded image the canvas has the texture and the source turned alike: both
/// are on their side exactly after an odd number of quarter turns. The image is fitted into the
/// view, and what is said of its zoom is the zoom at which the turned source fits.
pub proof fn turned_image_has_its_source_turned(
    state: ViewerState,
    delta: int,
    width: int,
    height: int,
)
    requires
        state.valid(),
        state.loaded(),
    ensures
        ({
            let after = state.turned(delta, width, height);
            let frame = state.frame();
            let sideways = (state.rotation + delta) % 2 != 0;
            &&& after.canvas.texture == Some(
                if sideways {
                    TextureSize { width: frame.height, height: frame.width }
                } else {
                    TextureSize { width: frame.width, height: frame.height }
                },
            )
            &&& (after.canvas.source_width, after.canvas.source_height) == if sideways {
                (frame.source_height as int, frame.source_width as int)
            } else {
                (frame.source_width as int, frame.source_height as int)
            }
            &&& after.canvas.zoom == whole(0)
            &&& after.canvas.decoded_scale == whole(after.canvas.texture->0.width as int).over(
                whole(after.canvas.source_width),
            )
            &&& after.info == text_or(file_name(frame.path@), "image"@) + "\n"@ + decimal_signed(
                frame.source_width as int,
            ) + " × "@ + decimal_signed(frame.source_height as int) + " · "@ + frame.file_type@
                + " · "@ + zoom_text(
                if sideways {
                    fit_zoom(width, height, frame.source_height as int, frame.source_width as int)
                } else {
                    fit_zoom(width, height, frame.source_width as int, frame.source_height as int)
                },
            )
        }),
{
    let turned = ViewerState { rotation: (state.rotation + delta) % 4, ..state };
    lemma_fitted_shown(turned, state.frame(), width, height);
    assert(((state.rotation + delta) % 4) % 2 == (state.rotation + delta) % 2);
}

/// A quarter turn puts the canvas on its side, and a second one puts it back; a half turn leaves its
/// size as it is.
pub proof fn turns_swap_the_canvas(state: ViewerState, delta: int, width: int, height: int)
    requires
        state.valid(),
        state.loaded(),
        delta % 2 != 0,
    ensures
        ({
            let start = state.turned(0, width, height).canvas;
            let once = state.turned(delta, width, height).canvas;
            let twice = state.turned(delta, width, height).turned(delta, width, height).canvas;
            let half = state.turned(2, width, height).canvas;
            &&& once.source_width == start.source_height
            &&& once.source_height == start.source_width
            &&& once.texture->0.width == start.texture->0.height
            &&& once.texture->0.height == start.texture->0.width
            &&& twice.source_width == start.source_width
            &&& twice.source_height == start.source_height
            &&& twice.texture == start.texture
            &&& half.source_width == start.source_width
            &&& half.source_height == start.source_height
            &&& half.texture == start.texture
        }),
{
    let once = state.turned(delta, width, height);
    lemma_turned_keeps(state, delta, width, height);
    lemma_parity(state.rotation, delta);
    turned_image_has_its_source_turned(state, 0, width, height);
    turned_image_has_its_source_turned(state, delta, width, height);
    turned_image_has_its_source_turned(state, 2, width, height);
    turned_image_has_its_source_turned(once, delta, width, height);
}

/// Turning an image keeps the listing, the cache and the title.
proof fn lemma_turned_keeps(state: ViewerState, delta: int, width: int, height: int)
    requires
        state.valid(),
    ensures
        ({
            let after = state.turned(delta, width, height);
            &&& after.valid()
            &&& after.rotation == (state.rotation + delta) % 4
            &&& after.paths == state.paths && after.index == state.index
            &&& after.frames == state.frames && after.generation == state.generation
            &&& after.resize_edge == state.resize_edge && after.resize_limit == state.resize_limit
            &&& after.title == state.title && after.status == state.status
            &&& after.edit_shown == state.edit_shown
            &&& after.metadata_shown == state.metadata_shown
            &&& after.loaded() == state.loaded() && after.frame() == state.frame()
        }),
{
    lemma_presenting_keeps(
        ViewerState { rotation: (state.rotation + delta) % 4, ..state },
        state.frame(),
        width,
        height,
    );
}

proof fn lemma_half_turns(turns: int)
    ensures
        (turns % 4) % 2 == turns % 2,
{
    lemma_mod_mod(turns, 2, 2);
}

proof fn lemma_parity(rotation: int, delta: int)
    ensures
        ((rotation + delta) % 4) % 2 == (rotation + delta) % 2,
        (rotation + 0) % 2 == (rotation + 2) % 2,
        delta % 2 != 0 ==> ((rotation + delta) % 2 != 0) != ((rotation + 0) % 2 != 0),
        delta % 2 != 0 ==> (((rotation + delta) % 4 + delta) % 2 != 0) == ((rotation + 0) % 2 != 0),
{
    lemma_half_turns(rotation + delta);
    let once = (rotation + delta) % 4;
    assert((once + delta) % 2 == (once % 2 + delta % 2) % 2);
    assert((rotation + delta) % 2 == (rotation % 2 + delta % 2) % 2);
}

/// Turning changes neither the listing nor the cache, and what is said of the size of the copy is
/// the size that it gets.
pub proof fn turns_are_announced(state: ViewerState, delta: int, width: int, height: int)
    requires
        state.valid(),
        state.loaded(),
    ensures
        ({
            let after = state.turned(delta, width, height);
            let size = edited_size(
                state.frame().source_width as int,
                state.frame().source_height as int,
                state.rotation + delta,
                truncated(state.resize_edge),
            );
            &&& after.edit_dimensions == "Output: "@ + decimal_signed(size.0) + " × "@
                + decimal_signed(size.1)
            &&& after.paths == state.paths && after.index == state.index
            &&& after.frames == state.frames && after.generation == state.generation
            &&& after.resize_edge == state.resize_edge && after.resize_limit == state.resize_limit
            &&& after.title == state.title && after.status == state.status
            &&& after.edit_shown == state.edit_shown
            &&& after.metadata_shown == state.metadata_shown
        }),
{
    lemma_turned_keeps(state, delta, width, height);
    lemma_parity(state.rotation, delta);
    let turned = ViewerState { rotation: (state.rotation + delta) % 4, ..state };
    let shown = turned.presenting(state.frame(), width, height);
    lemma_presenting_keeps(turned, state.frame(), width, height);
    lemma_announced(shown, state.frame());
}

/// What is said of the size of an edited copy is the size that it gets; saying it changes nothing
/// else.
pub proof fn chosen_edge_is_announced(state: ViewerState, edge: Number)
    ensures
        ({
            let after = (ViewerState { resize_edge: edge, ..state }).dimensioned(state.frame());
            let size = edited_size(
                state.frame().source_width as int,
                state.frame().source_height as int,
                state.rotation,
                truncated(edge),
            );
            after == (ViewerState {
                resize_edge: edge,
                edit_dimensions: "Output: "@ + decimal_signed(size.0) + " × "@ + decimal_signed(
                    size.1,
                ),
                ..state
            })
        }),
{
    lemma_announced(ViewerState { resize_edge: edge, ..state }, state.frame());
}

proof fn lemma_announced(state: ViewerState, frame: DecodedFrame)
    ensures
        ({
            let size = edited_size(
                frame.source_width as int,
                frame.source_height as int,
                state.rotation,
                truncated(state.resize_edge),
            );
            state.dimensioned(frame) == (ViewerState {
                edit_dimensions: "Output: "@ + decimal_signed(size.0) + " × "@ + decimal_signed(
                    size.1,
                ),
                ..state
            })
        }),
{
}

/// Undoing the edits puts the image upright and takes its source size again; the listing and the
/// cache stay as they are.
pub proof fn edits_are_undone(state: ViewerState, width: int, height: int)
    requires
        state.valid(),
        state.loaded(),
    ensures
        ({
            let after = state.unedited(width, height);
            let frame = state.frame();
            let edge = if frame.source_width > frame.source_height {
                frame.source_width as int
            } else {
                frame.source_height as int
            };
            &&& after.rotation == 0
            &&& after.resize_limit == edge
            &&& after.resize_edge == whole(edge)
            &&& after.canvas.texture == Some(
                TextureSize { width: frame.width, height: frame.height },
            )
            &&& after.canvas.source_width == frame.source_width
            &&& after.canvas.source_height == frame.source_height
            &&& after.canvas.zoom == whole(0)
            &&& after.edit_dimensions == "Output: "@ + decimal_signed(frame.source_width as int)
                + " × "@ + decimal_signed(frame.source_height as int)
            &&& after.paths == state.paths && after.index == state.index && after.frames
                == state.frames && after.generation == state.generation
            &&& after.title == state.title && after.status == state.status
            &&& after.edit_shown == state.edit_shown && after.metadata_shown
                == state.metadata_shown
        }),
{
    lemma_truncated_whole(source_edge(state.frame()));
    lemma_presenting_keeps(
        ViewerState { rotation: 0, ..state }.unresized(state.frame()),
        state.frame(),
        width,
        height,
    );
}

/// What is said of the current image is its file name, the size of its source, its type and the
/// zoom that is shown; saying it changes nothing else. Nothing new is said while it is not decoded.
pub proof fn info_tells_what_is_shown(state: ViewerState, width: int, height: int, zoom: Number)
    requires
        state.valid(),
        state.canvas.shown_zoom(width, height) == Some(zoom),
    ensures
        state.informed(width, height) == if state.loaded() {
            ViewerState {
                info: text_or(file_name(state.frame().path@), "image"@) + "\n"@ + decimal_signed(
                    state.frame().source_width as int,
                ) + " × "@ + decimal_signed(state.frame().source_height as int) + " · "@
                    + state.frame().file_type@ + " · "@ + zoom_text(zoom),
                ..state
            }
        } else {
            state
        },
{
}

/// The frame of the current image is shown as soon as it comes, unless it is outdated. A failure is
/// told where it is about the current image, and changes nothing else.
pub proof fn events_of_the_current_image_are_told(
    state: ViewerState,
    event: LoaderEvent,
    width: int,
    height: int,
)
    requires
        state.valid(),
        state.acceptable(event),
    ensures
        event matches LoaderEvent::Failed { generation, path, message } ==> state.accepting(
            event,
            width,
            height,
        ) == if generation == state.generation && components(path@) == components(
            state.paths[state.index],
        ) {
            ViewerState { status: "Could not load: "@ + message@, ..state }
        } else {
            state
        },
        event matches LoaderEvent::Loaded { generation, frame } ==> (generation
            == state.generation && components(frame.path@) == components(
            state.paths[state.index],
        ) ==> {
            let after = state.accepting(event, width, height);
            let sideways = state.rotation % 2 != 0;
            &&& after.paths == state.paths && after.index == state.index && after.generation
                == state.generation && after.title == state.title
            &&& after.status == Seq::<char>::empty()
            &&& after.metadata == frame.metadata@
            &&& after.canvas.texture == Some(
                if sideways {
                    TextureSize { width: frame.height, height: frame.width }
                } else {
                    TextureSize { width: frame.width, height: frame.height }
                },
            )
            &&& (after.canvas.source_width, after.canvas.source_height) == if sideways {
                (frame.source_height as int, frame.source_width as int)
            } else {
                (frame.source_width as int, frame.source_height as int)
            }
            &&& after.resize_edge == whole(
                if frame.source_width > frame.source_height {
                    frame.source_width as int
                } else {
                    frame.source_height as int
                },
            )
            &&& after.info == text_or(file_name(frame.path@), "image"@) + "\n"@ + decimal_signed(
                frame.source_width as int,
            ) + " × "@ + decimal_signed(frame.source_height as int) + " · "@ + frame.file_type@
                + " · "@ + zoom_text(
                fit_zoom(width, height, after.canvas.source_width, after.canvas.source_height),
            )
        }),
{
    if let LoaderEvent::Loaded { generation, frame } = event {
        if state.expects(generation, frame.path.key()) {
            awaited_frame_is_shown(state, generation, frame, width, height);
            let cached = state.caching(frame);
            let used = ViewerState {
                frames: touched(cached.frames, state.current_key()),
                ..cached
            };
            lemma_fitted_shown(used.unresized(frame), frame, width, height);
        }
    }
}

/// After a deletion all other images are listed as before, and what is decoded of them stays.
pub proof fn deletion_keeps_the_others(state: ViewerState, i: int, path: Components)
    requires
        state.valid(),
        0 <= i < state.paths.len(),
        i != state.index,
    ensures
        ({
            let after = state.forgetting();
            &&& after.paths[if i < state.index {
                i
            } else {
                i - 1
            }] == state.paths[i]
            &&& path != components(state.paths[state.index]) ==> (holds(after.frames, path) <==> holds(
                state.frames,
                path,
            ))
            &&& after.generation == state.generation + 1
            &&& after.direction == state.direction
            &&& after.limit == state.limit
        }),
{
    other_frames_are_kept(state.frames, state.current_key(), path);
}

/// Ahead of the current image two others are asked for, and one behind it, as far as they are not
/// decoded: ahead is where the last move has led to.
pub proof fn neighbours_ahead_are_requested(state: ViewerState, key: Components)
    requires
        state.valid(),
    ensures
        ({
            let ahead: int = if state.direction >= 0 {
                1
            } else {
                -1
            };
            &&& lists(state.requested(), key) <==> key == state.current_key() || state.misses(
                ahead,
                key,
            ) || state.misses(2 * ahead, key) || state.misses(-ahead, key)
            &&& state.requested()[0] == state.current()
            &&& 0 <= state.index + ahead < state.paths.len() && state.misses(
                ahead,
                components(state.paths[state.index + ahead]),
            ) && components(state.paths[state.index + ahead]) != state.current_key() ==> {
                &&& state.requested().len() > 1
                &&& state.requested()[1] == state.paths[state.index + ahead]
            }
        }),
{
    only_missing_neighbours_are_requested(state, key);
    current_image_is_requested_first(state);
    let offsets = prefetch_offsets(state.direction);
    assert(state.misses(offsets[0], key) ==> exists|k: int|
        0 <= k < 3 && #[trigger] state.misses(offsets[k], key));
    assert(state.misses(offsets[1], key) ==> exists|k: int|
        0 <= k < 3 && #[trigger] state.misses(offsets[k], key));
    assert(state.misses(offsets[2], key) ==> exists|k: int|
        0 <= k < 3 && #[trigger] state.misses(offsets[k], key));
    let next = state.index + offsets[0];
    if 0 <= next < state.paths.len() && state.misses(offsets[0], components(state.paths[next]))
        && components(state.paths[next]) != state.current_key() {
        let one = offsets.take(1);
        let two = offsets.take(2);
        assert(offsets.drop_last() =~= two);
        assert(two.drop_last() =~= one);
        assert(one.drop_last() =~= Seq::<int>::empty());
        assert(state.missing(one.drop_last()) == Seq::<Seq<u8>>::empty());
        assert(one.last() == offsets[0]);
        assert(state.missing(one) =~= seq![state.paths[next]]);
        let missing = state.missing(offsets);
        assert(state.missing(two).len() > 0 && state.missing(two)[0] == state.paths[next]);
        assert(missing.len() > 0 && missing[0] == state.paths[next]);
        lemma_deduplicated_second(seq![state.current()] + missing);
    }
}

proof fn lemma_deduplicated_second(paths: Seq<Seq<u8>>)
    requires
        paths.len() > 1,
        components(paths[0]) != components(paths[1]),
    ensures
        deduplicated(paths).len() > 1,
        deduplicated(paths)[0] == paths[0],
        deduplicated(paths)[1] == paths[1],
    decreases paths.len(),
{
    let before = paths.drop_last();
    if paths.len() > 2 {
        lemma_deduplicated_second(before);
    } else {
        assert(before.drop_last() =~= Seq::<Seq<u8>>::empty());
        reveal_with_fuel(deduplicated, 3);
        assert(deduplicated(before) =~= seq![paths[0]]);
    }
}

/// A frame of another image is cached without being shown: where it fits beside the others, all of
/// them are decoded then; else the least recently used ones go, but not that of the current image.
pub proof fn prefetched_frames_are_cached(
    state: ViewerState,
    generation: u64,
    frame: DecodedFrame,
    width: int,
    height: int,
    path: Components,
)
    requires
        state.valid(),
        state.acceptable(LoaderEvent::Loaded { generation, frame }),
        components(frame.path@) != state.current_key() || generation != state.generation,
    ensures
        ({
            let after = state.accepting(LoaderEvent::Loaded { generation, frame }, width, height);
            let all = without(state.frames, components(frame.path@)).push(Arc::new(frame));
            &&& after == (ViewerState {
                frames: evicted(all, state.limit, state.current_key()),
                ..state
            })
            &&& total(without(state.frames, components(frame.path@))) + frame.pixels@.len()
                <= state.limit ==> {
                &&& after.frames == all
                &&& holds(after.frames, components(frame.path@))
                &&& holds(state.frames, path) ==> holds(after.frames, path)
            }
        }),
{
    let key = frame.path.key();
    let all = without(state.frames, key).push(Arc::new(frame));
    if total(without(state.frames, key)) + frame.pixels@.len() <= state.limit {
        fitting_frame_is_read_back(state.frames, state.limit, Arc::new(frame), state.current_key());
        if holds(state.frames, path) && path != key {
            other_frames_are_kept(state.frames, key, path);
            cached_frames_are_distinct(state.frames, Arc::new(frame));
            push_keeps_others(without(state.frames, key), Arc::new(frame), path);
        }
    }
}

/// What is asked for is awaited: a request is for the images of the current place, and the answer
/// to it about the current image is not outdated.
pub proof fn requested_images_are_awaited(
    state: ViewerState,
    generation: u64,
    paths: Vec<ImagePath>,
)
    requires
        state.valid(),
        state.asks(Some(LoaderCommand::Batch { generation, paths })),
    ensures
        state.expects(generation, components(state.paths[state.index])),
        path_views(paths@) == state.requested(),
        paths@.len() > 0,
        paths@[0]@ == state.paths[state.index],
{
    current_image_is_requested_first(state);
    assert(path_views(paths@)[0] == paths@[0]@);
}

/// A change of the current image gives a texture exactly where that image is decoded, and it is the
/// upright image; it always asks the loader for what is missing, and does not close the window.
pub proof fn updates_show_the_current_image(state: ViewerState, update: Update)
    requires
        state.updates(update),
    ensures
        !update.close,
        update.request is Some,
        update.texture is Some <==> holds(state.frames, components(state.paths[state.index])),
        update.texture matches Some(texture) ==> texture.shows(state.frame(), 0),
        state.asks(update.request),
{
}

/// A move by a distance goes that far, or as far as the listing reaches, and then looks ahead in
/// its direction. Where there is nowhere to go, nothing changes.
pub proof fn moves_lead_to_their_place(state: ViewerState, delta: int, width: int, height: int)
    requires
        state.valid(),
    ensures
        ({
            let after = state.moved_by(delta, width, height);
            let target = state.index + delta;
            let last = state.paths.len() - 1;
            &&& 0 <= target <= last ==> after.index == target
            &&& target < 0 ==> after.index == 0
            &&& target > last ==> after.index == last
            &&& after.paths == state.paths
            &&& after.index == state.index ==> after == state
            &&& after.index > state.index ==> after.direction == 1
            &&& after.index < state.index ==> after.direction == -1
            &&& after.index != state.index ==> after == state.at(
                after.index,
                after.direction,
            ).shown_or_loading(width, height)
        }),
{
    let place = state.place_by(delta);
    let direction: int = if delta > 0 {
        1
    } else {
        -1
    };
    if place != state.index {
        lemma_shown_keeps(state.at(place, direction), width, height);
    }
}

/// Showing an image keeps the place.
proof fn lemma_shown_keeps(state: ViewerState, width: int, height: int)
    ensures
        ({
            let after = state.shown_or_loading(width, height);
            &&& after.paths == state.paths
            &&& after.index == state.index
            &&& after.direction == state.direction
            &&& after.generation == state.generation
        }),
{
}

/// A move to a place goes there, or to the last image, and then looks ahead in the direction where
/// that place lies.
pub proof fn places_are_reached(state: ViewerState, index: int, width: int, height: int)
    requires
        state.valid(),
        index >= 0,
    ensures
        ({
            let after = state.moved_to(index, width, height);
            &&& index == state.index ==> after == state
            &&& index != state.index ==> {
                &&& index < state.paths.len() ==> after.index == index
                &&& index >= state.paths.len() ==> after.index == state.paths.len() - 1
                &&& index > state.index ==> after.direction == 1
                &&& index < state.index ==> after.direction == -1
                &&& after.paths == state.paths
                &&& after == state.at(after.index, after.direction).shown_or_loading(width, height)
            }
        }),
{
    if index != state.index {
        lemma_shown_keeps(
            state.at(
                if index < state.paths.len() {
                    index
                } else {
                    state.paths.len() - 1
                },
                if index > state.index {
                    1
                } else {
                    -1
                },
            ),
            width,
            height,
        );
    }
}

/// The two panels exclude each other: opening one closes the other, closing one opens none. The
/// metadata panel changes nothing else; closing the edit panel neither.
pub proof fn panels_exclude_each_other(state: ViewerState, width: int, height: int)
    requires
        state.valid(),
    ensures
        ({
            let metadata = state.metadata_toggled();
            &&& metadata.metadata_shown == !state.metadata_shown
            &&& !(metadata.metadata_shown && metadata.edit_shown)
            &&& state.metadata_shown ==> metadata.edit_shown == state.edit_shown
            &&& metadata == (ViewerState {
                metadata_shown: metadata.metadata_shown,
                edit_shown: metadata.edit_shown,
                ..state
            })
        }),
        ({
            let edit = state.edit_toggled(width, height);
            &&& edit.edit_shown == !state.edit_shown
            &&& !(edit.metadata_shown && edit.edit_shown)
            &&& state.edit_shown ==> edit == (ViewerState { edit_shown: false, ..state })
            &&& !state.edit_shown ==> edit.rotation == 0 && edit.paths == state.paths && edit.index
                == state.index && edit.frames == state.frames && edit.title == state.title
        }),
        ({
            let info = state.info_toggled(width, height);
            &&& info.info_visible == !state.info_visible
            &&& info == (ViewerState {
                info_visible: info.info_visible,
                info: state.informed(width, height).info,
                ..state
            })
        }),
{
    if !state.edit_shown {
        let open = ViewerState { edit_shown: true, metadata_shown: false, ..state };
        if open.loaded() {
            edits_are_undone(open, width, height);
        }
    }
}

/// Opening the edit panel for a decoded image starts without edits.
pub proof fn edit_panel_starts_without_edits(state: ViewerState, width: int, height: int)
    requires
        state.valid(),
        state.loaded(),
        !state.edit_shown,
    ensures
        ({
            let after = state.edit_toggled(width, height);
            let frame = state.frame();
            &&& after.rotation == 0
            &&& after.resize_edge == whole(
                if frame.source_width > frame.source_height {
                    frame.source_width as int
                } else {
                    frame.source_height as int
                },
            )
            &&& after.edit_dimensions == "Output: "@ + decimal_signed(frame.source_width as int)
                + " × "@ + decimal_signed(frame.source_height as int)
            &&& after.canvas.source_width == frame.source_width
            &&& after.canvas.source_height == frame.source_height
        }),
{
    let open = ViewerState { edit_shown: true, metadata_shown: false, ..state };
    edits_are_undone(open, width, height);
}

/// Zooming changes the canvas and what is said of its zoom, and nothing else.
pub proof fn zooming_is_told(
    state: ViewerState,
    canvas: CanvasState,
    width: int,
    height: int,
    zoom: Number,
)
    requires
        state.valid(),
        state.loaded(),
        canvas.shown_zoom(width, height) == Some(zoom),
    ensures
        state.with_canvas(canvas, width, height) == (ViewerState {
            canvas,
            info: text_or(file_name(state.frame().path@), "image"@) + "\n"@ + decimal_signed(
                state.frame().source_width as int,
            ) + " × "@ + decimal_signed(state.frame().source_height as int) + " · "@
                + state.frame().file_type@ + " · "@ + zoom_text(zoom),
            ..state
        }),
{
    info_tells_what_is_shown(ViewerState { canvas, ..state }, width, height, zoom);
}

/// Choosing an edge for the copy changes that edge, what is said of the size of the copy, and
/// nothing else.
pub proof fn chosen_edges_are_kept(state: ViewerState, edge: Number)
    requires
        state.valid(),
    ensures
        state.resized(edge) == (ViewerState {
            resize_edge: edge,
            edit_dimensions: state.resized(edge).edit_dimensions,
            ..state
        }),
        state.loaded() ==> ({
            let size = edited_size(
                state.frame().source_width as int,
                state.frame().source_height as int,
                state.rotation,
                truncated(edge),
            );
            state.resized(edge).edit_dimensions == "Output: "@ + decimal_signed(size.0) + " × "@
                + decimal_signed(size.1)
        }),
        !state.loaded() ==> state.resized(edge).edit_dimensions == state.edit_dimensions,
{
    chosen_edge_is_announced(state, edge);
}

} // verus!
