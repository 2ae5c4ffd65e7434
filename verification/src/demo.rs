//! The demo page and the modes of the demo server.

use vstd::prelude::*;

use crate::bake_args::text_option;
use crate::text::{push_text, same_text};

verus! {

/// The page up to the layer in its title.
pub const PAGE_START: &'static str = r#"<!DOCTYPE html>
<html lang="en">
<head>
  <meta charset="UTF-8"/>
  <meta name="viewport" content="width=device-width, initial-scale=1.0"/>
  <title>light-maps — "#;

/// From the title to the first address of the server.
pub const PAGE_STYLE: &'static str = r#"</title>
  <link rel="stylesheet" href="https://unpkg.com/maplibre-gl@4/dist/maplibre-gl.css"/>
  <style>
    * { margin:0; padding:0; box-sizing:border-box }
    body { background:#0d1117; color:#c9d1d9; font-family:system-ui,sans-serif }
    #map { width:100vw; height:100vh }
    #info {
      position:fixed; top:16px; left:16px; z-index:10;
      background:rgba(13,17,23,.85); border:1px solid #30363d;
      border-radius:8px; padding:14px 16px; max-width:280px;
      backdrop-filter:blur(6px);
    }
    #info h1 { font-size:15px; font-weight:600; color:#58a6ff; margin-bottom:4px }
    #info p  { font-size:12px; color:#8b949e; line-height:1.5 }
    #info code { font-size:11px; color:#79c0ff; background:#161b22; padding:1px 4px; border-radius:3px }
    #jump {
      margin-top:10px; padding-top:10px; border-top:1px solid #21262d;
    }
    #jump label { display:block; font-size:11px; color:#8b949e; margin-bottom:5px }
    #jump-row { display:flex; gap:5px }
    #jump-input {
      flex:1; min-width:0;
      background:#0d1117; border:1px solid #30363d; border-radius:5px;
      color:#c9d1d9; font-size:12px; padding:4px 8px;
      outline:none;
    }
    #jump-input:focus { border-color:#58a6ff }
    #jump-input.error { border-color:#f85149 }
    #jump-btn {
      background:#21262d; border:1px solid #30363d; border-radius:5px;
      color:#c9d1d9; font-size:12px; padding:4px 9px; cursor:pointer;
      white-space:nowrap;
    }
    #jump-btn:hover { background:#30363d }
    .maplibregl-popup-content {
      background:#161b22; color:#c9d1d9; border:1px solid #30363d;
      border-radius:6px; padding:10px 14px; font-size:12px; max-width:280px;
      word-break:break-word;
    }
    .maplibregl-popup-tip { border-top-color:#30363d }
    #props { margin-top:6px; display:grid; grid-template-columns:auto 1fr; gap:2px 8px }
    #props .k { color:#8b949e; white-space:nowrap }
    #props .v { color:#c9d1d9 }
  </style>
</head>
<body>
  <div id="info">
    <h1>light-maps</h1>
    <p id="layer-label">Loading…<br></p>
    <p><a href="http://"#;

/// From the first address to the second.
pub const PAGE_BODY: &'static str = r#"/tile.json" style="color:#79c0ff;font-size:11px">tile.json</a></p>
    <p style="margin-top:4px;font-size:12px;color:#8b949e">Click any feature for properties.</p>
    <div id="jump">
      <label for="jump-input">Jump to coordinate</label>
      <div id="jump-row">
        <input id="jump-input" type="text" placeholder="lat, lng  or  lng, lat" spellcheck="false"/>
        <button id="jump-btn">Go</button>
      </div>
    </div>
  </div>
  <div id="map"></div>
  <script src="https://unpkg.com/maplibre-gl@4/dist/maplibre-gl.js"></script>
  <script>
    const TILE_JSON_URL = 'http://"#;

/// The rest of the page.
pub const PAGE_SCRIPT: &'static str = r#"/tile.json';

    // Fetch tile.json first so we get the real layer names, bounds, and center
    // from the archive rather than guessing them from the filename.
    fetch(TILE_JSON_URL)
      .then(r => r.json())
      .then(tj => initMap(tj))
      .catch(e => document.getElementById('layer-label').textContent = 'Error: ' + e);

    function initMap(tj) {
      const layers = (tj.vector_layers || []).map(l => l.id);
      const firstLayer = layers[0] || 'layer';

      document.getElementById('layer-label').innerHTML =
        layers.map(l => `Layer: <code>${l}</code>`).join('<br>');

      // Use center/bounds from tile.json if available.
      const center = tj.center ? [tj.center[0], tj.center[1]] : [0, 20];
      const initZoom = tj.center ? tj.center[2] : 1.5;

      // Build one set of style layers per vector layer in the archive.
      const PALETTE = ['#58a6ff','#f78166','#3fb950','#d2a8ff','#ffa657'];
      const styleLayers = [
        { id: 'background', type: 'background', paint: { 'background-color': '#0d1117' } },
      ];
      layers.forEach((lyr, i) => {
        const color = PALETTE[i % PALETTE.length];
        styleLayers.push(
          { id: `fill-${lyr}`, type: 'fill', source: 'data', 'source-layer': lyr,
             paint: { 'fill-color': color, 'fill-opacity': 0.25 } },
          { id: `line-${lyr}`, type: 'line', source: 'data', 'source-layer': lyr,
             paint: { 'line-color': color, 'line-width': 1 } },
          { id: `circle-${lyr}`, type: 'circle', source: 'data', 'source-layer': lyr,
             filter: ['==', ['geometry-type'], 'Point'],
             paint: {
               'circle-radius': ['interpolate', ['linear'], ['zoom'], 0, 3, 8, 7],
               'circle-color': color,
               'circle-stroke-width': 1.5,
               'circle-stroke-color': '#161b22'
             } },
        );
      });

      const map = new maplibregl.Map({
        container: 'map',
        style: {
          version: 8,
          glyphs: 'https://demotiles.maplibre.org/font/{fontstack}/{range}.pbf',
          sources: { data: { type: 'vector', url: TILE_JSON_URL } },
          layers: styleLayers,
        },
        center,
        zoom: initZoom,
      });

      // Fit to bounds once the map is ready, if tile.json provides them.
      if (tj.bounds) {
        map.on('load', () => {
          map.fitBounds(
            [[tj.bounds[0], tj.bounds[1]], [tj.bounds[2], tj.bounds[3]]],
            { padding: 40, duration: 0 }
          );
        });
      }

      map.addControl(new maplibregl.NavigationControl(), 'top-right');
      map.addControl(new maplibregl.ScaleControl(), 'bottom-right');

      const CLICKABLE = layers.flatMap(l => [`fill-${l}`, `line-${l}`, `circle-${l}`]);

      CLICKABLE.forEach(id => {
        map.on('click', id, e => {
          const p = e.features[0].properties;
          const rows = Object.entries(p)
            .map(([k, v]) => `<span class="k">${k}</span><span class="v">${v}</span>`)
            .join('');
          new maplibregl.Popup({ maxWidth: '320px' })
            .setLngLat(e.lngLat)
            .setHTML(`<div id="props">${rows}</div>`)
            .addTo(map);
        });
        map.on('mouseenter', id, () => map.getCanvas().style.cursor = 'pointer');
        map.on('mouseleave', id, () => map.getCanvas().style.cursor = '');
      });

      // ── coordinate jump ────────────────────────────────────────────────────
      const jumpInput = document.getElementById('jump-input');
      const jumpBtn   = document.getElementById('jump-btn');

      function parseCoord(raw) {
        const parts = raw.trim().split(/[\s,]+/).filter(Boolean);
        if (parts.length < 2) return null;
        const a = parseFloat(parts[0]);
        const b = parseFloat(parts[1]);
        if (isNaN(a) || isNaN(b)) return null;
        if (Math.abs(a) > 90) return { lng: a, lat: b };
        if (Math.abs(b) > 90) return { lng: b, lat: a };
        return { lng: b, lat: a };
      }

      function doJump() {
        const coord = parseCoord(jumpInput.value);
        if (!coord) {
          jumpInput.classList.add('error');
          jumpInput.title = 'Enter two numbers, e.g. 47.6, -122.3';
          return;
        }
        jumpInput.classList.remove('error');
        jumpInput.title = '';
        map.flyTo({ center: [coord.lng, coord.lat], zoom: Math.max(map.getZoom(), 10), duration: 800 });
      }

      jumpBtn.addEventListener('click', doJump);
      jumpInput.addEventListener('keydown', e => { if (e.key === 'Enter') doJump(); });
      jumpInput.addEventListener('input', () => jumpInput.classList.remove('error'));
    } // end initMap
  </script>
</body>
</html>"#;

/// The demo page for a layer of the server at `addr`.
pub fn demo_html(layer: &str, addr: &str) -> (r: String)
    ensures
        r@ == PAGE_START@ + layer@ + PAGE_STYLE@ + addr@ + PAGE_BODY@ + addr@ + PAGE_SCRIPT@,
{
    let mut r = PAGE_START.to_owned();
    push_text(&mut r, layer);
    push_text(&mut r, PAGE_STYLE);
    push_text(&mut r, addr);
    push_text(&mut r, PAGE_BODY);
    push_text(&mut r, addr);
    push_text(&mut r, PAGE_SCRIPT);
    r
}

/// Where the served archive comes from.
#[derive(Debug, Clone, Copy, PartialEq, Eq)]
pub enum DemoSource {
    /// An existing archive.
    Archive,
    /// A file that is baked first.
    Input,
    /// The built-in capitals.
    Capitals,
}

/// Where the served archive comes from: a given archive wins over a file to bake.
pub fn demo_source(file: bool, bake: bool) -> (s: DemoSource)
    ensures
        s == (if file {
            DemoSource::Archive
        } else if bake {
            DemoSource::Input
        } else {
            DemoSource::Capitals
        }),
{
    if file {
        DemoSource::Archive
    } else if bake {
        DemoSource::Input
    } else {
        DemoSource::Capitals
    }
}

/// The name of the served layer: the given one, or that of the source.
pub open spec fn layer_label(
    given: Option<Seq<char>>,
    source: DemoSource,
    stem: Option<Seq<char>>,
) -> Seq<char> {
    match given {
        Some(name) => name,
        None => match source {
            DemoSource::Capitals => "capitals"@,
            _ => match stem {
                Some(s) => s,
                None => "layer"@,
            },
        },
    }
}

/// The name of the served layer: the given one, or that of the source.
pub fn demo_layer(given: Option<String>, source: DemoSource, stem: Option<String>) -> (r: String)
    ensures
        r@ == layer_label(text_option(given), source, text_option(stem)),
{
    match given {
        Some(name) => name,
        None => match source {
            DemoSource::Capitals => "capitals".to_owned(),
            _ => match stem {
                Some(s) => s,
                None => "layer".to_owned(),
            },
        },
    }
}

/// What is wrong with the extension of a file that is to be served as it is.
pub fn archive_error(ext: &str) -> (r: Option<String>)
    ensures
        text_option(r) == (if ext@ == "pmtiles"@ {
            None
        } else {
            Some(
                "expected a .pmtiles file, got ."@ + ext@
                    + ". To bake first use --bake instead of --file."@,
            )
        }),
{
    if same_text(ext, "pmtiles") {
        return None;
    }
    let mut r = "expected a .pmtiles file, got .".to_owned();
    push_text(&mut r, ext);
    push_text(&mut r, ". To bake first use --bake instead of --file.");
    Some(r)
}

/// A name that is given is taken. Else the capitals have their own name, and a file gives
/// its stem.
pub proof fn given_names_are_taken(given: Seq<char>, source: DemoSource, stem: Seq<char>)
    ensures
        layer_label(Some(given), source, Some(stem)) == given,
        layer_label(Some(given), source, None) == given,
        layer_label(None, DemoSource::Capitals, Some(stem)) == "capitals"@,
        !(source is Capitals) ==> layer_label(None, source, Some(stem)) == stem,
        !(source is Capitals) ==> layer_label(None, source, None) == "layer"@,
{
}

} // verus!
