//! Image lightbox: chapters that show an image get a self-contained
//! viewer (CSS and JavaScript) appended, with click-to-open, drag-to-pan,
//! wheel and pinch zoom, double-tap reset and Escape / backdrop to close.
use vstd::prelude::*;
use crate::text::{self, chars_of, contains_exec, push_str, string_of};

verus! {

/// The viewer's style sheet.
pub const LIGHTBOX_CSS: &'static str = r#"<style>
.lb-overlay{position:fixed;inset:0;background:rgba(0,0,0,.87);z-index:9999;
  display:none;align-items:center;justify-content:center;
  overscroll-behavior:contain;}
.lb-overlay.lb-open{display:flex;}
.lb-img{max-width:90vw;max-height:90vh;object-fit:contain;
  cursor:grab;border-radius:2px;box-shadow:0 4px 24px rgba(0,0,0,.6);
  user-select:none;-webkit-user-select:none;
  touch-action:none;-webkit-user-drag:none;}
.lb-close{position:fixed;top:12px;right:12px;width:44px;height:44px;
  border:none;border-radius:50%;background:rgba(255,255,255,.15);
  color:#fff;font-size:24px;line-height:44px;text-align:center;
  cursor:pointer;padding:0;transition:background .15s;}
.lb-close:hover,.lb-close:focus{background:rgba(255,255,255,.3);outline:none;}
</style>
"#;

/// The viewer's script.
pub const LIGHTBOX_JS: &'static str = r#"
<script>
(function () {
  document.addEventListener('DOMContentLoaded', function () {
    if (document.querySelector('.lb-overlay')) return;

    // Collect every image on the page except future lightbox images.
    var pageImgs = Array.from(document.querySelectorAll('img'))
      .filter(function (el) { return !el.classList.contains('lb-img'); });
    if (!pageImgs.length) return;

    // Build the overlay DOM.
    var overlay = document.createElement('div');
    overlay.className = 'lb-overlay';
    overlay.setAttribute('role', 'dialog');
    overlay.setAttribute('aria-modal', 'true');

    var lbImg = document.createElement('img');
    lbImg.className = 'lb-img';

    var closeBtn = document.createElement('button');
    closeBtn.className = 'lb-close';
    closeBtn.innerHTML = '&times;';
    closeBtn.setAttribute('aria-label', 'Close image');

    overlay.appendChild(lbImg);
    overlay.appendChild(closeBtn);
    document.body.appendChild(overlay);

    // Transform state.
    var scale = 1, tx = 0, ty = 0, lastDist = 0;
    var activePointers = new Map();

    function apply() {
      lbImg.style.transform =
        'translate(' + tx + 'px,' + ty + 'px) scale(' + scale + ')';
    }
    function reset() { scale = 1; tx = 0; ty = 0; apply(); }

    function open(src, alt) {
      lbImg.src = src;
      lbImg.alt = alt || '';
      reset();
      overlay.classList.add('lb-open');
      document.body.style.overflow = 'hidden';
      closeBtn.focus();
    }

    function close() {
      overlay.classList.remove('lb-open');
      document.body.style.overflow = '';
      lbImg.src = '';
      activePointers.clear();
      lastDist = 0;
    }

    // Add zoom-in cursor and click-to-open on every content image.
    pageImgs.forEach(function (el) {
      el.style.cursor = 'zoom-in';
      el.addEventListener('click', function (e) {
        e.stopPropagation();
        open(el.src, el.alt);
      });
    });

    // Close on backdrop click; double-click / double-tap on image resets zoom.
    var lastTap = 0;
    overlay.addEventListener('click', function (e) {
      if (e.target === overlay) { close(); return; }
      var now = Date.now();
      if (now - lastTap < 300) reset();
      lastTap = now;
    });

    closeBtn.addEventListener('click', close);

    document.addEventListener('keydown', function (e) {
      if (e.key === 'Escape' && overlay.classList.contains('lb-open')) close();
    });

    // --- Pointer events: single-pointer drag, two-pointer pinch zoom --------

    lbImg.addEventListener('pointerdown', function (e) {
      e.preventDefault();
      lbImg.setPointerCapture(e.pointerId);
      activePointers.set(e.pointerId, { x: e.clientX, y: e.clientY });
      if (activePointers.size === 1) lbImg.style.cursor = 'grabbing';
    });

    lbImg.addEventListener('pointermove', function (e) {
      if (!activePointers.has(e.pointerId)) return;
      e.preventDefault();
      var prev = activePointers.get(e.pointerId);
      activePointers.set(e.pointerId, { x: e.clientX, y: e.clientY });

      if (activePointers.size === 1) {
        // Drag.
        tx += e.clientX - prev.x;
        ty += e.clientY - prev.y;
        apply();
      } else if (activePointers.size >= 2) {
        // Pinch zoom: measure distance between the two oldest pointers.
        var pts = Array.from(activePointers.values());
        var dist = Math.hypot(pts[1].x - pts[0].x, pts[1].y - pts[0].y);
        if (lastDist > 0) {
          scale = Math.max(0.5, Math.min(10, scale * (dist / lastDist)));
          apply();
        }
        lastDist = dist;
      }
    });

    function onPointerEnd(e) {
      activePointers.delete(e.pointerId);
      if (activePointers.size < 2) lastDist = 0;
      if (activePointers.size === 0) lbImg.style.cursor = 'grab';
    }
    lbImg.addEventListener('pointerup', onPointerEnd);
    lbImg.addEventListener('pointercancel', onPointerEnd);

    // --- Scroll-wheel zoom (desktop) ----------------------------------------

    overlay.addEventListener('wheel', function (e) {
      e.preventDefault();
      scale = Math.max(0.5, Math.min(10, scale * (e.deltaY < 0 ? 1.12 : 0.9)));
      apply();
    }, { passive: false });
  });
}());
</script>"#;

/// The chapter shows an image: it holds `![` or `<img`.
pub open spec fn spec_has_images(content: Seq<char>) -> bool {
    text::contains(content, seq!['!', '[']) || text::contains(content, seq!['<', 'i', 'm', 'g'])
}

/// The chapter with the viewer appended when it shows an image.
pub open spec fn spec_process(content: Seq<char>) -> Seq<char> {
    if spec_has_images(content) {
        content + LIGHTBOX_CSS@ + LIGHTBOX_JS@
    } else {
        content
    }
}

/// Whether the chapter holds `![` or `<img`.
pub fn has_images(content: &str) -> (b: bool)
    ensures
        b == spec_has_images(content@),
{
    let cv = chars_of(content);
    let a: [char; 2] = ['!', '['];
    let b: [char; 4] = ['<', 'i', 'm', 'g'];
    let (x, y) = (a.as_slice(), b.as_slice());
    assert(x@ =~= seq!['!', '[']);
    assert(y@ =~= seq!['<', 'i', 'm', 'g']);
    contains_exec(cv.as_slice(), x) || contains_exec(cv.as_slice(), y)
}

/// Appends the lightbox CSS and JavaScript to chapters that show images.
pub fn process(content: &str) -> (res: String)
    ensures
        res@ == spec_process(content@),
{
    if !has_images(content) {
        return content.to_owned();
    }
    let mut out: Vec<char> = Vec::new();
    push_str(&mut out, content);
    push_str(&mut out, LIGHTBOX_CSS);
    push_str(&mut out, LIGHTBOX_JS);
    string_of(out.as_slice())
}

/// The lightbox only comes with images: a chapter without `![` or `<img`
/// is left as it is, and one with them keeps its text, the lightbox added
/// after it.
pub proof fn law_lightbox_only_with_images(content: Seq<char>)
    ensures
        !spec_has_images(content) ==> spec_process(content) == content,
        spec_has_images(content) ==> spec_process(content).take(content.len() as int) == content,
{
    if spec_has_images(content) {
        assert((content + LIGHTBOX_CSS@ + LIGHTBOX_JS@).take(content.len() as int) =~= content);
    }
}

} // verus!
